//! The global orderer: it collects the local graphs of a round until a quorum of them
//! has had time to settle, and derives the global graph of the round from them.

use std::collections::{BTreeMap, BTreeSet};
use vstd::prelude::*;
use vstd::std_specs::btree::spec_keys_iter;
use vstd::std_specs::iter::IteratorSpec;
use crate::batch::{
    batch_views, bytes_lt, lemma_bytes_lt_total, lemma_bytes_lt_trans, Batch, BatchView, PublicKey,
    Stake,
};
use crate::committee::{quorum, stake_of, total_stake, Committee};
use crate::components::proper_edges;
use crate::evidence::graph_stakes;
use crate::global_batch::{
    build_global_batch, claim_weights, distinct_authors, global_nodes, is_global_batch,
    lemma_global_batch_unique, lemma_graph_stake_bound,
};
use crate::ordered::{ascending, list_ids};
use crate::support::{claim_stakes, claim_votes, claim_weight, claimed_by, earlier_views};
use crate::votes::{lemma_stake_prefix, stake_sum};

verus! {

/// How long a quorum of local graphs is left to settle, in nanoseconds.
pub const STABILIZATION_DELAY_NS: u64 = 10_000_000;

/// What has been collected for one round.
pub struct SequenceState {
    pub own_received: bool,
    pub collected_stake: Stake,
    pub local_graphs: Vec<Batch>,
    pub quorum_reached_at: Option<u64>,
}

/// The contents of a `SequenceState`.
pub struct SequenceView {
    pub own_received: bool,
    pub collected_stake: Stake,
    pub local_graphs: Seq<BatchView>,
    pub quorum_reached_at: Option<u64>,
}

impl View for SequenceState {
    type V = SequenceView;

    open spec fn view(&self) -> SequenceView {
        SequenceView {
            own_received: self.own_received,
            collected_stake: self.collected_stake,
            local_graphs: batch_views(self.local_graphs@),
            quorum_reached_at: self.quorum_reached_at,
        }
    }
}

/// What has been collected for a round that nothing was received of.
pub open spec fn nothing_collected() -> SequenceView {
    SequenceView {
        own_received: false,
        collected_stake: 0,
        local_graphs: Seq::empty(),
        quorum_reached_at: None,
    }
}

/// No two graphs have the same author.
pub open spec fn distinct_graphs(graphs: Seq<BatchView>) -> bool {
    forall|i: int, j: int|
        0 <= i < j < graphs.len() ==> (#[trigger] graphs[i]).author != (#[trigger] graphs[j]).author
}

/// One of the graphs is by `author`.
pub open spec fn has_author(graphs: Seq<BatchView>, author: PublicKey) -> bool {
    exists|i: int| 0 <= i < graphs.len() && (#[trigger] graphs[i]).author == author
}

/// The stake that was collected is that of the graphs, which are of different authors.
pub open spec fn valid_sequence(members: Seq<(PublicKey, Stake)>, state: SequenceView) -> bool {
    &&& distinct_graphs(state.local_graphs)
    &&& state.collected_stake == stake_sum(graph_stakes(members, state.local_graphs))
}

/// What has been collected once `graph` has arrived at the time `now`.
pub open spec fn with_graph(
    members: Seq<(PublicKey, Stake)>,
    state: SequenceView,
    graph: BatchView,
    from_our_quorum: bool,
    now: u64,
) -> SequenceView {
    let known = has_author(state.local_graphs, graph.author);
    let own_received = state.own_received || from_our_quorum;
    let collected = if known {
        state.collected_stake as nat
    } else {
        state.collected_stake as nat + stake_of(members, graph.author) as nat
    };
    SequenceView {
        own_received,
        collected_stake: collected as Stake,
        local_graphs: if known {
            state.local_graphs
        } else {
            state.local_graphs.push(graph)
        },
        quorum_reached_at: if own_received && collected >= quorum(members)
            && state.quorum_reached_at is None {
            Some(now)
        } else {
            state.quorum_reached_at
        },
    }
}

/// What became of a local graph.
#[derive(Clone, Copy, PartialEq, Eq, Structural, Debug)]
pub enum GraphOutcome {
    /// The round of the graph is finalized.
    Finalized,
    /// The author is no authority.
    UnknownAuthor,
    /// The graph came in as our own, but has another author.
    WrongAuthor,
    /// The graph counts for its round.
    Recorded,
}

/// The round can be finalized at the time `now`.
pub open spec fn is_settled(
    members: Seq<(PublicKey, Stake)>,
    state: SequenceView,
    now: u64,
) -> bool {
    &&& state.own_received
    &&& state.collected_stake >= quorum(members)
    &&& state.quorum_reached_at matches Some(reached_at) && now >= reached_at
        + STABILIZATION_DELAY_NS
}

/// `sorted` lists `graphs` in the order of their authors.
pub open spec fn sorts_by_author(graphs: Seq<BatchView>, sorted: Seq<BatchView>) -> bool {
    &&& sorted.to_set() == graphs.to_set()
    &&& forall|i: int, j: int|
        0 <= i < j < sorted.len() ==> bytes_lt(
            (#[trigger] sorted[i]).author.0@,
            (#[trigger] sorted[j]).author.0@,
        )
}

/// `selected` is the shortest prefix of `sorted` with a quorum of stake; it is empty
/// where all of them have none.
pub open spec fn is_quorum_prefix(
    members: Seq<(PublicKey, Stake)>,
    sorted: Seq<BatchView>,
    selected: Seq<BatchView>,
) -> bool {
    if stake_sum(graph_stakes(members, sorted)) < quorum(members) {
        selected.len() == 0
    } else {
        &&& selected.len() <= sorted.len()
        &&& selected == sorted.take(selected.len() as int)
        &&& stake_sum(graph_stakes(members, selected)) >= quorum(members)
        &&& forall|n: int|
            0 <= n < selected.len() ==> stake_sum(graph_stakes(members, #[trigger] sorted.take(n)))
                < quorum(members)
    }
}

/// `selected` is the quorum that is picked from `graphs`.
pub open spec fn is_quorum_selection(
    members: Seq<(PublicKey, Stake)>,
    graphs: Seq<BatchView>,
    selected: Seq<BatchView>,
) -> bool {
    exists|sorted: Seq<BatchView>| #[trigger]
        sorts_by_author(graphs, sorted) && is_quorum_prefix(members, sorted, selected)
}

/// There is one listing of graphs in the order of their authors.
proof fn lemma_sorted_unique(s: Seq<BatchView>, t: Seq<BatchView>)
    requires
        sorts_by_author(s, s),
        sorts_by_author(s, t),
    ensures
        s == t,
    decreases s.len(),
{
    assert(s.to_set() == t.to_set());
    if s.len() == 0 {
        if t.len() > 0 {
            assert(t.to_set().contains(t[0]));
        }
        assert(s =~= t);
    } else {
        assert(s.to_set().contains(s.last()));
        assert(t.contains(s.last()));
        assert(t.to_set().contains(t.last()));
        assert(s.contains(t.last()));
        let i = choose|i: int| 0 <= i < t.len() && t[i] == s.last();
        let j = choose|j: int| 0 <= j < s.len() && s[j] == t.last();
        lemma_bytes_lt_total(s.last().author.0@, t.last().author.0@);
        assert(s.last() == t.last()) by {
            if i < t.len() - 1 && j < s.len() - 1 {
                assert(bytes_lt(t[i].author.0@, t[t.len() - 1].author.0@));
                assert(bytes_lt(s[j].author.0@, s[s.len() - 1].author.0@));
            }
        }
        let s1 = s.drop_last();
        let t1 = t.drop_last();
        assert(s =~= s1.push(s.last()));
        assert(t =~= t1.push(t.last()));
        crate::ordered::lemma_push_contains(s1, s.last());
        crate::ordered::lemma_push_contains(t1, t.last());
        lemma_bytes_lt_total(s.last().author.0@, s.last().author.0@);
        assert(!s1.contains(s.last())) by {
            if s1.contains(s.last()) {
                let k = choose|k: int| 0 <= k < s1.len() && s1[k] == s.last();
                assert(bytes_lt(s[k].author.0@, s[s.len() - 1].author.0@));
            }
        }
        assert(!t1.contains(t.last())) by {
            if t1.contains(t.last()) {
                let k = choose|k: int| 0 <= k < t1.len() && t1[k] == t.last();
                assert(bytes_lt(t[k].author.0@, t[t.len() - 1].author.0@));
            }
        }
        assert forall|x: BatchView| s1.to_set().contains(x) <==> t1.to_set().contains(x) by {
            assert(s.to_set().contains(x) <==> t.to_set().contains(x));
            assert(s1.push(s.last()).contains(x) <==> s1.contains(x) || x == s.last());
            assert(t1.push(t.last()).contains(x) <==> t1.contains(x) || x == t.last());
            assert(s.to_set().contains(x) <==> s.contains(x));
            assert(t.to_set().contains(x) <==> t.contains(x));
        }
        assert(s1.to_set() =~= t1.to_set());
        assert forall|a: int, b: int| 0 <= a < b < s1.len() implies bytes_lt(
            (#[trigger] s1[a]).author.0@,
            (#[trigger] s1[b]).author.0@,
        ) by {
            assert(bytes_lt(s[a].author.0@, s[b].author.0@));
        }
        assert forall|a: int, b: int| 0 <= a < b < t1.len() implies bytes_lt(
            (#[trigger] t1[a]).author.0@,
            (#[trigger] t1[b]).author.0@,
        ) by {
            assert(bytes_lt(t[a].author.0@, t[b].author.0@));
        }
        lemma_sorted_unique(s1, t1);
    }
}

/// The quorum that is picked depends on which graphs were collected, not on the order
/// in which they arrived.
pub proof fn lemma_selection_ignores_arrival_order(
    members: Seq<(PublicKey, Stake)>,
    graphs: Seq<BatchView>,
    others: Seq<BatchView>,
    selected: Seq<BatchView>,
    chosen: Seq<BatchView>,
)
    requires
        graphs.to_set() == others.to_set(),
        is_quorum_selection(members, graphs, selected),
        is_quorum_selection(members, others, chosen),
    ensures
        selected == chosen,
{
    let s = choose|s: Seq<BatchView>| #[trigger]
        sorts_by_author(graphs, s) && is_quorum_prefix(members, s, selected);
    let t = choose|t: Seq<BatchView>| #[trigger]
        sorts_by_author(others, t) && is_quorum_prefix(members, t, chosen);
    assert(sorts_by_author(s, s));
    assert(sorts_by_author(s, t));
    lemma_sorted_unique(s, t);
    if stake_sum(graph_stakes(members, s)) < quorum(members) {
        assert(selected =~= chosen);
    } else {
        let m = selected.len() as int;
        let n = chosen.len() as int;
        if m < n {
            assert(stake_sum(graph_stakes(members, s.take(m))) < quorum(members));
        } else if n < m {
            assert(stake_sum(graph_stakes(members, s.take(n))) < quorum(members));
        }
    }
}

/// Collects local graphs and derives global ones from them.
pub struct GlobalOrderer {
    pub name: PublicKey,
    pub committee: Committee,
    pub sequences: BTreeMap<u64, SequenceState>,
    pub finalized: BTreeSet<u64>,
    /// For each authority, the missing pairs of its global graphs that were observed.
    pub observed: Vec<(PublicKey, BTreeSet<(u64, u64)>)>,
}

/// The state of a `GlobalOrderer`.
pub struct OrdererView {
    pub name: PublicKey,
    pub members: Seq<(PublicKey, Stake)>,
    pub sequences: Map<u64, SequenceView>,
    pub finalized: Set<u64>,
    pub observed: Seq<(PublicKey, Set<(u64, u64)>)>,
}

impl View for GlobalOrderer {
    type V = OrdererView;

    open spec fn view(&self) -> OrdererView {
        OrdererView {
            name: self.name,
            members: self.committee@,
            sequences: self.sequences@.map_values(|state: SequenceState| state@),
            finalized: self.finalized@,
            observed: earlier_views(self.observed@),
        }
    }
}

impl OrdererView {
    /// What has been collected for a round.
    pub open spec fn collected(self, sequence: u64) -> SequenceView {
        if self.sequences.contains_key(sequence) {
            self.sequences[sequence]
        } else {
            nothing_collected()
        }
    }

    /// What becomes of a local graph.
    pub open spec fn outcome(self, graph: BatchView, from_our_quorum: bool) -> GraphOutcome {
        if self.finalized.contains(graph.sequence) {
            GraphOutcome::Finalized
        } else if stake_of(self.members, graph.author) == 0 {
            GraphOutcome::UnknownAuthor
        } else if from_our_quorum && graph.author != self.name {
            GraphOutcome::WrongAuthor
        } else {
            GraphOutcome::Recorded
        }
    }

    /// The missing pairs that were observed of `author`.
    pub open spec fn observed_of(self, author: PublicKey) -> Set<(u64, u64)> {
        Set::new(
            |p: (u64, u64)|
                exists|i: int|
                    0 <= i < self.observed.len() && (#[trigger] self.observed[i]).0 == author
                        && self.observed[i].1.contains(p),
        )
    }
}

/// The keys of a map, in ascending order.
fn list_keys(map: &BTreeMap<u64, SequenceState>) -> (keys: Vec<u64>)
    ensures
        ascending(keys@),
        keys@.to_set() == map@.dom(),
{
    let mut set: BTreeSet<u64> = BTreeSet::new();
    let ghost all = spec_keys_iter(map).remaining().unref();
    for key in it: map.keys()
        invariant
            all == it.seq().unref(),
            all.to_set() == map@.dom(),
            set@ == all.take(it.index()).to_set(),
    {
        let ghost seen = all.take(it.index());
        proof {
            seen.lemma_push_to_set_commute(*key);
            assert(all.take(it.index() + 1) =~= seen.push(*key));
        }
        set.insert(*key);
    }
    assert(all.take(all.len() as int) =~= all);
    list_ids(&set)
}

/// The stake of graphs, one more of them.
pub(crate) proof fn lemma_push_stake(members: Seq<(PublicKey, Stake)>, graphs: Seq<BatchView>, graph: BatchView)
    ensures
        stake_sum(graph_stakes(members, graphs.push(graph))) == stake_sum(
            graph_stakes(members, graphs),
        ) + stake_of(members, graph.author),
{
    let stakes = graph_stakes(members, graphs);
    let more = graph_stakes(members, graphs.push(graph));
    assert(more =~= stakes.push(stake_of(members, graph.author)));
    assert(more.drop_last() =~= stakes);
}

/// Whether one of the graphs is by `author`.
fn includes_author(graphs: &Vec<Batch>, author: &PublicKey) -> (found: bool)
    ensures
        found == has_author(batch_views(graphs@), *author),
{
    let ghost views = batch_views(graphs@);
    for i in 0..graphs.len()
        invariant
            views == batch_views(graphs@),
            forall|k: int| 0 <= k < i ==> (#[trigger] views[k]).author != *author,
    {
        assert(views[i as int] == graphs@[i as int]@);
        if graphs[i].author == *author {
            return true;
        }
    }
    false
}

/// Copies of the graphs, in the order of their authors.
fn sort_by_author(graphs: &Vec<Batch>) -> (sorted: Vec<Batch>)
    requires
        distinct_graphs(batch_views(graphs@)),
    ensures
        sorts_by_author(batch_views(graphs@), batch_views(sorted@)),
        batch_views(sorted@).len() == graphs@.len(),
{
    let mut sorted: Vec<Batch> = Vec::new();
    let ghost views = batch_views(graphs@);
    assert(batch_views(sorted@).to_set() =~= views.take(0).to_set());
    for i in 0..graphs.len()
        invariant
            views == batch_views(graphs@),
            distinct_graphs(views),
            sorts_by_author(views.take(i as int), batch_views(sorted@)),
            sorted@.len() == i,
    {
        let graph = graphs[i].clone();
        let ghost before = batch_views(sorted@);
        let ghost seen = views.take(i as int);
        let mut place: usize = 0;
        while place < sorted.len() && sorted[place].author.less(&graph.author)
            invariant
                place <= sorted@.len(),
                before == batch_views(sorted@),
                forall|k: int|
                    0 <= k < place ==> bytes_lt((#[trigger] before[k]).author.0@, graph.author.0@),
            decreases sorted@.len() - place,
        {
            assert(before[place as int] == sorted@[place as int]@);
            place += 1;
        }
        let ghost view = graph@;
        sorted.insert(place, graph);
        let ghost after = batch_views(sorted@);
        proof {
            assert(after =~= before.insert(place as int, view));
            assert(view == views[i as int]);
            assert(views.take(i + 1) =~= seen.push(view));
            lemma_insert_contains(before, place as int, view);
            crate::ordered::lemma_push_contains(seen, view);
            assert forall|x: BatchView| after.to_set().contains(x) <==> seen.push(
                view,
            ).to_set().contains(x) by {
                assert(before.to_set().contains(x) <==> seen.to_set().contains(x));
            }
            assert(after.to_set() =~= seen.push(view).to_set());
            assert forall|k: int| place <= k < before.len() implies bytes_lt(
                view.author.0@,
                (#[trigger] before[k]).author.0@,
            ) by {
                let other = before[k];
                assert(before.to_set().contains(other));
                assert(seen.contains(other));
                let l = choose|l: int| 0 <= l < seen.len() && seen[l] == other;
                assert(views[l].author != views[i as int].author);
                lemma_bytes_lt_total(other.author.0@, view.author.0@);
                if k == place {
                    assert(sorted@[place + 1]@ == before[place as int]);
                    assert(!bytes_lt(other.author.0@, view.author.0@));
                    lemma_same_key_bytes(other.author, view.author);
                } else {
                    let first = before[place as int];
                    assert(before.to_set().contains(first));
                    assert(seen.contains(first));
                    let m = choose|m: int| 0 <= m < seen.len() && seen[m] == first;
                    assert(views[m].author != views[i as int].author);
                    lemma_bytes_lt_total(first.author.0@, view.author.0@);
                    lemma_same_key_bytes(first.author, view.author);
                    assert(!bytes_lt(first.author.0@, view.author.0@));
                    assert(bytes_lt(before[place as int].author.0@, before[k].author.0@));
                    lemma_bytes_lt_trans(
                        view.author.0@,
                        first.author.0@,
                        other.author.0@,
                    );
                }
            }
            assert forall|a: int, b: int| 0 <= a < b < after.len() implies bytes_lt(
                (#[trigger] after[a]).author.0@,
                (#[trigger] after[b]).author.0@,
            ) by {
                if b < place {
                    assert(bytes_lt(before[a].author.0@, before[b].author.0@));
                } else if b == place {
                    assert(bytes_lt(before[a].author.0@, view.author.0@));
                } else if a < place {
                    assert(bytes_lt(before[a].author.0@, before[b - 1].author.0@));
                } else if a == place {
                    assert(bytes_lt(view.author.0@, before[b - 1].author.0@));
                } else {
                    assert(bytes_lt(before[a - 1].author.0@, before[b - 1].author.0@));
                }
            }
        }
    }
    assert(views.take(views.len() as int) =~= views);
    sorted
}

/// Keys with the same bytes are the same.
proof fn lemma_same_key_bytes(a: PublicKey, b: PublicKey)
    ensures
        a.0@ == b.0@ ==> a == b,
{
    if a.0@ == b.0@ {
        assert forall|i: int| 0 <= i < 32 implies a.0[i] == b.0[i] by {
            assert(a.0@[i] == b.0@[i]);
        }
        assert(a.0 =~= b.0);
    }
}

/// Membership after an insertion.
proof fn lemma_insert_contains(s: Seq<BatchView>, i: int, a: BatchView)
    requires
        0 <= i <= s.len(),
    ensures
        forall|x: BatchView| #[trigger] s.insert(i, a).contains(x) <==> s.contains(x) || x == a,
{
    let t = s.insert(i, a);
    assert forall|x: BatchView| #[trigger] t.contains(x) <==> s.contains(x) || x == a by {
        if s.contains(x) {
            let k = choose|k: int| 0 <= k < s.len() && s[k] == x;
            if k < i {
                assert(t[k] == x);
            } else {
                assert(t[k + 1] == x);
            }
        }
        if x == a {
            assert(t[i] == a);
        }
        if t.contains(x) {
            let k = choose|k: int| 0 <= k < t.len() && t[k] == x;
            if k < i {
                assert(s[k] == x);
            } else if k > i {
                assert(s[k - 1] == x);
            }
        }
    }
}

/// A listing in the order of the authors is of different authors.
pub(crate) proof fn lemma_sorted_distinct(graphs: Seq<BatchView>, sorted: Seq<BatchView>)
    requires
        sorts_by_author(graphs, sorted),
    ensures
        distinct_graphs(sorted),
{
    assert forall|i: int, j: int| 0 <= i < j < sorted.len() implies (#[trigger] sorted[i]).author
        != (#[trigger] sorted[j]).author by {
        assert(bytes_lt(sorted[i].author.0@, sorted[j].author.0@));
        lemma_bytes_lt_total(sorted[i].author.0@, sorted[i].author.0@);
    }
}

/// Two listings of the same graphs have the same stake.
pub(crate) proof fn lemma_same_stake(members: Seq<(PublicKey, Stake)>, s: Seq<BatchView>, t: Seq<BatchView>)
    requires
        distinct_graphs(s),
        distinct_graphs(t),
        s.to_set() == t.to_set(),
    ensures
        stake_sum(graph_stakes(members, s)) == stake_sum(graph_stakes(members, t)),
    decreases s.len(),
{
    if s.len() == 0 {
        if t.len() > 0 {
            assert(t.to_set().contains(t[0]));
        }
        assert(s =~= t);
    } else {
        let last = s.last();
        assert(s.to_set().contains(last));
        assert(t.contains(last));
        let k = choose|k: int| 0 <= k < t.len() && t[k] == last;
        let s1 = s.drop_last();
        let t1 = t.remove(k);
        assert(s =~= s1.push(last));
        crate::ordered::lemma_push_contains(s1, last);
        lemma_insert_contains(t1, k, last);
        assert(t1.insert(k, last) =~= t);
        assert forall|x: BatchView| s1.to_set().contains(x) <==> t1.to_set().contains(x) by {
            assert(s.to_set().contains(x) <==> t.to_set().contains(x));
            assert(s.to_set().contains(x) <==> s.contains(x));
            assert(t.to_set().contains(x) <==> t.contains(x));
            if s1.contains(last) {
                let m = choose|m: int| 0 <= m < s1.len() && s1[m] == last;
                assert(s[m].author != s[s.len() - 1].author);
            }
            if t1.contains(last) {
                let m = choose|m: int| 0 <= m < t1.len() && t1[m] == last;
                if m < k {
                    assert(t[m].author != t[k].author);
                } else {
                    assert(t[k].author != t[m + 1].author);
                }
            }
        }
        assert(s1.to_set() =~= t1.to_set());
        assert forall|i: int, j: int| 0 <= i < j < s1.len() implies (#[trigger] s1[i]).author != (
        #[trigger] s1[j]).author by {
            assert(s[i].author != s[j].author);
        }
        assert forall|i: int, j: int| 0 <= i < j < t1.len() implies (#[trigger] t1[i]).author != (
        #[trigger] t1[j]).author by {
            let a = if i < k {
                i
            } else {
                i + 1
            };
            let b = if j < k {
                j
            } else {
                j + 1
            };
            assert(t[a].author != t[b].author);
        }
        lemma_same_stake(members, s1, t1);
        lemma_push_stake(members, s1, last);
        lemma_remove_stake(members, t, k);
    }
}

/// The stake of graphs, one of them removed.
proof fn lemma_remove_stake(members: Seq<(PublicKey, Stake)>, t: Seq<BatchView>, k: int)
    requires
        0 <= k < t.len(),
    ensures
        stake_sum(graph_stakes(members, t)) == stake_sum(graph_stakes(members, t.remove(k)))
            + stake_of(members, t[k].author),
    decreases t.len(),
{
    let fewer = t.drop_last();
    assert(t =~= fewer.push(t.last()));
    lemma_push_stake(members, fewer, t.last());
    if k == t.len() - 1 {
        assert(t.remove(k) =~= fewer);
    } else {
        lemma_remove_stake(members, fewer, k);
        assert(t.remove(k) =~= fewer.remove(k).push(t.last()));
        lemma_push_stake(members, fewer.remove(k), t.last());
    }
}

/// What is observed of each author after the entry of one of them, at `place` if there
/// was one, has been replaced by an entry at the end.
proof fn lemma_observed_moved(
    before: OrdererView,
    after: OrdererView,
    place: int,
    author: PublicKey,
    known: Set<(u64, u64)>,
    all: Set<(u64, u64)>,
    other: PublicKey,
)
    requires
        distinct_authors(before.observed),
        0 <= place <= before.observed.len(),
        forall|k: int| 0 <= k < place ==> (#[trigger] before.observed[k]).0 != author,
        place < before.observed.len() ==> before.observed[place] == (author, known),
        place == before.observed.len() ==> known == Set::<(u64, u64)>::empty(),
        after.observed == (if place < before.observed.len() {
            before.observed.remove(place)
        } else {
            before.observed
        }).push((author, all)),
    ensures
        other == author ==> before.observed_of(other) == known && after.observed_of(other) == all,
        other != author ==> after.observed_of(other) == before.observed_of(other),
{
    let old_list = before.observed;
    let new_list = after.observed;
    let n = new_list.len() - 1;
    if other == author {
        assert forall|p: (u64, u64)| before.observed_of(other).contains(p) <==> known.contains(p) by {
            if before.observed_of(other).contains(p) {
                let i = choose|i: int|
                    0 <= i < old_list.len() && (#[trigger] old_list[i]).0 == other
                        && old_list[i].1.contains(p);
                if i > place {
                    assert(old_list[place].0 != old_list[i].0);
                }
                assert(i == place);
            }
            if known.contains(p) {
                assert(old_list[place].1.contains(p));
            }
        }
        assert(before.observed_of(other) =~= known);
        assert forall|p: (u64, u64)| after.observed_of(other).contains(p) <==> all.contains(p) by {
            if after.observed_of(other).contains(p) {
                let i = choose|i: int|
                    0 <= i < new_list.len() && (#[trigger] new_list[i]).0 == other
                        && new_list[i].1.contains(p);
                if i < n {
                    if i < place {
                        assert(new_list[i] == old_list[i]);
                    } else {
                        assert(new_list[i] == old_list[i + 1]);
                        assert(old_list[place].0 != old_list[i + 1].0);
                    }
                }
            }
            if all.contains(p) {
                assert(new_list[n].1.contains(p));
            }
        }
        assert(after.observed_of(other) =~= all);
    } else {
        assert forall|p: (u64, u64)|
            after.observed_of(other).contains(p) <==> before.observed_of(other).contains(p) by {
            if before.observed_of(other).contains(p) {
                let i = choose|i: int|
                    0 <= i < old_list.len() && (#[trigger] old_list[i]).0 == other
                        && old_list[i].1.contains(p);
                if i < place {
                    assert(new_list[i] == old_list[i]);
                } else {
                    assert(i != place);
                    assert(new_list[i - 1] == old_list[i]);
                }
            }
            if after.observed_of(other).contains(p) {
                let i = choose|i: int|
                    0 <= i < new_list.len() && (#[trigger] new_list[i]).0 == other
                        && new_list[i].1.contains(p);
                assert(i < n);
                if i < place {
                    assert(new_list[i] == old_list[i]);
                } else {
                    assert(new_list[i] == old_list[i + 1]);
                }
            }
        }
        assert(after.observed_of(other) =~= before.observed_of(other));
    }
}

impl GlobalOrderer {
    /// The committee is valid, the stake that was collected is that of graphs of different
    /// authors, and each authority has one entry of observed pairs.
    pub open spec fn wf(&self) -> bool {
        &&& self.committee.wf()
        &&& forall|sequence: u64|
            self@.sequences.contains_key(sequence) ==> valid_sequence(
                self@.members,
                #[trigger] self@.sequences[sequence],
            )
        &&& distinct_authors(self@.observed)
    }

    /// An orderer that has collected nothing.
    pub fn new(name: PublicKey, committee: Committee) -> (orderer: Self)
        requires
            committee.wf(),
        ensures
            orderer.wf(),
            orderer@ == (OrdererView {
                name,
                members: committee@,
                sequences: Map::empty(),
                finalized: Set::empty(),
                observed: Seq::empty(),
            }),
    {
        let orderer = GlobalOrderer {
            name,
            committee,
            sequences: BTreeMap::new(),
            finalized: BTreeSet::new(),
            observed: Vec::new(),
        };
        assert(orderer@.sequences =~= Map::empty());
        assert(orderer@.observed =~= Seq::empty());
        orderer
    }

    /// Takes in a local graph that arrives at the time `now`. `from_our_quorum` says
    /// that it came in as our own.
    pub fn handle_local_graph(&mut self, batch: Batch, from_our_quorum: bool, now: u64) -> (outcome:
        GraphOutcome)
        requires
            old(self).wf(),
        ensures
            final(self).wf(),
            outcome == old(self)@.outcome(batch@, from_our_quorum),
            final(self)@ == if outcome == GraphOutcome::Recorded {
                OrdererView {
                    sequences: old(self)@.sequences.insert(
                        batch.sequence,
                        with_graph(
                            old(self)@.members,
                            old(self)@.collected(batch.sequence),
                            batch@,
                            from_our_quorum,
                            now,
                        ),
                    ),
                    ..old(self)@
                }
            } else {
                old(self)@
            },
    {
        let ghost before = self@;
        let ghost graph = batch@;
        if self.finalized.contains(&batch.sequence) {
            return GraphOutcome::Finalized;
        }
        let author_stake = self.committee.stake(&batch.author);
        if author_stake == 0 {
            return GraphOutcome::UnknownAuthor;
        }
        if from_our_quorum && batch.author != self.name {
            return GraphOutcome::WrongAuthor;
        }
        let quorum_stake = self.committee.quorum_threshold();
        let sequence = batch.sequence;
        let ghost state = before.collected(sequence);
        proof {
            if before.sequences.contains_key(sequence) {
                assert(valid_sequence(before.members, before.sequences[sequence]));
            } else {
                assert(graph_stakes(before.members, state.local_graphs) =~= Seq::empty());
                assert(valid_sequence(before.members, state));
            }
        }
        let ghost map_before = self.sequences@;
        let mut entry: SequenceState = match self.sequences.remove(&sequence) {
            Some(entry) => entry,
            None => SequenceState {
                own_received: false,
                collected_stake: 0,
                local_graphs: Vec::new(),
                quorum_reached_at: None,
            },
        };
        assert(entry@.local_graphs =~= state.local_graphs);
        assert(entry@ == state);
        if !includes_author(&entry.local_graphs, &batch.author) {
            proof {
                let more = state.local_graphs.push(graph);
                assert forall|i: int, j: int| 0 <= i < j < more.len() implies (
                #[trigger] more[i]).author != (#[trigger] more[j]).author by {
                    assert(more[i] == state.local_graphs[i]);
                }
                lemma_graph_stake_bound(before.members, more);
                lemma_push_stake(before.members, state.local_graphs, graph);
            }
            entry.collected_stake = entry.collected_stake + author_stake;
            let ghost graphs_before = entry.local_graphs@;
            entry.local_graphs.push(batch);
            assert(batch_views(entry.local_graphs@) =~= batch_views(graphs_before).push(graph));
        }
        if from_our_quorum {
            entry.own_received = true;
        }
        if entry.own_received && entry.collected_stake >= quorum_stake
            && entry.quorum_reached_at.is_none() {
            entry.quorum_reached_at = Some(now);
        }
        let ghost updated = entry@;
        self.sequences.insert(sequence, entry);
        proof {
            assert(updated == with_graph(before.members, state, graph, from_our_quorum, now));
            assert(self@.sequences =~= before.sequences.insert(sequence, updated));
            assert forall|other: u64|
                self@.sequences.contains_key(other) implies valid_sequence(
                self@.members,
                #[trigger] self@.sequences[other],
            ) by {
                if other != sequence {
                    assert(before.sequences.contains_key(other));
                    assert(valid_sequence(before.members, before.sequences[other]));
                }
            }
        }
        GraphOutcome::Recorded
    }

    /// The rounds that can be finalized at the time `now`, in ascending order.
    pub fn ready_sequences(&self, now: u64) -> (ready: Vec<u64>)
        requires
            self.wf(),
        ensures
            ascending(ready@),
            forall|sequence: u64| #[trigger]
                ready@.contains(sequence) <==> self@.sequences.contains_key(sequence)
                    && !self@.finalized.contains(sequence) && is_settled(
                    self@.members,
                    self@.sequences[sequence],
                    now,
                ),
    {
        let quorum_stake = self.committee.quorum_threshold();
        let keys = list_keys(&self.sequences);
        let mut ready: BTreeSet<u64> = BTreeSet::new();
        for i in 0..keys.len()
            invariant
                quorum_stake == quorum(self@.members),
                keys@.to_set() == self.sequences@.dom(),
                forall|sequence: u64| #[trigger]
                    ready@.contains(sequence) <==> keys@.take(i as int).contains(sequence)
                        && !self@.finalized.contains(sequence) && is_settled(
                        self@.members,
                        self@.sequences[sequence],
                        now,
                    ),
        {
            let sequence = keys[i];
            let ghost seen = keys@.take(i as int);
            proof {
                crate::ordered::lemma_push_contains(seen, sequence);
                assert(keys@.take(i + 1) =~= seen.push(sequence));
                assert(keys@.to_set().contains(sequence));
            }
            let state = self.sequences.get(&sequence).unwrap();
            assert(self@.sequences[sequence] == state@);
            let settled = match state.quorum_reached_at {
                Some(reached_at) => now.saturating_sub(reached_at) >= STABILIZATION_DELAY_NS,
                None => false,
            };
            if !self.finalized.contains(&sequence) && state.own_received && state.collected_stake
                >= quorum_stake && settled {
                ready.insert(sequence);
            }
        }
        let listed = list_ids(&ready);
        proof {
            assert(keys@.take(keys@.len() as int) =~= keys@);
            assert forall|sequence: u64| #[trigger]
                listed@.contains(sequence) <==> self@.sequences.contains_key(sequence)
                    && !self@.finalized.contains(sequence) && is_settled(
                    self@.members,
                    self@.sequences[sequence],
                    now,
                ) by {
                assert(listed@.contains(sequence) <==> listed@.to_set().contains(sequence));
                assert(keys@.contains(sequence) <==> keys@.to_set().contains(sequence));
            }
        }
        listed
    }

    /// Picks, in the order of the authors, the shortest list of graphs with a quorum of
    /// stake. The list is empty where there is none.
    pub fn select_quorum_graphs(committee: &Committee, local_graphs: &Vec<Batch>) -> (selected: Vec<
        Batch,
    >)
        requires
            committee.wf(),
            distinct_graphs(batch_views(local_graphs@)),
        ensures
            is_quorum_selection(committee@, batch_views(local_graphs@), batch_views(selected@)),
    {
        let ghost members = committee@;
        let sorted = sort_by_author(local_graphs);
        let ghost views = batch_views(sorted@);
        proof {
            lemma_sorted_distinct(batch_views(local_graphs@), views);
            lemma_graph_stake_bound(members, views);
            assert(graph_stakes(members, views.take(0)) =~= Seq::empty());
        }
        let quorum_stake = committee.quorum_threshold();
        let mut selected: Vec<Batch> = Vec::new();
        let mut stake: Stake = 0;
        assert(batch_views(selected@) =~= views.take(0));
        for i in 0..sorted.len()
            invariant
                committee.wf(),
                members == committee@,
                views == batch_views(sorted@),
                sorts_by_author(batch_views(local_graphs@), views),
                quorum_stake == quorum(members),
                stake == stake_sum(graph_stakes(members, views.take(i as int))),
                stake_sum(graph_stakes(members, views)) <= Stake::MAX,
                batch_views(selected@) == views.take(i as int),
                forall|n: int|
                    0 <= n <= i ==> stake_sum(graph_stakes(members, #[trigger] views.take(n)))
                        < quorum(members),
        {
            let ghost before = batch_views(selected@);
            proof {
                assert(views.take(i + 1) =~= views.take(i as int).push(views[i as int]));
                lemma_push_stake(members, views.take(i as int), views[i as int]);
                assert(graph_stakes(members, views).take(i + 1) =~= graph_stakes(
                    members,
                    views.take(i + 1),
                ));
                lemma_stake_prefix(graph_stakes(members, views), i + 1);
            }
            stake = stake + committee.stake(&sorted[i].author);
            let graph = sorted[i].clone();
            let ghost view = graph@;
            selected.push(graph);
            assert(batch_views(selected@) =~= before.push(view));
            if stake >= quorum_stake {
                proof {
                    assert(graph_stakes(members, views).take(i + 1) =~= graph_stakes(
                        members,
                        views.take(i + 1),
                    ));
                    lemma_stake_prefix(graph_stakes(members, views), i + 1);
                    assert(is_quorum_prefix(members, views, batch_views(selected@)));
                }
                return selected;
            }
        }
        let nothing: Vec<Batch> = Vec::new();
        proof {
            assert(views.take(views.len() as int) =~= views);
            assert(is_quorum_prefix(members, views, batch_views(nothing@)));
        }
        nothing
    }

    /// The global graph of a round, where a quorum of local graphs was collected for it.
    pub fn order_sequence(&self, sequence: u64) -> (batch: Option<Batch>)
        requires
            self.wf(),
        ensures
            batch is None <==> stake_sum(
                graph_stakes(self@.members, self@.collected(sequence).local_graphs),
            ) < quorum(self@.members),
            match batch {
                Some(batch) => exists|selected: Seq<BatchView>| #[trigger]
                    is_quorum_selection(
                        self@.members,
                        self@.collected(sequence).local_graphs,
                        selected,
                    ) && is_global_batch(
                        self@.name,
                        self@.members,
                        sequence,
                        selected,
                        self@.observed,
                        batch@,
                    ),
                None => true,
            },
    {
        let ghost members = self@.members;
        let state = match self.sequences.get(&sequence) {
            Some(state) => state,
            None => {
                assert(graph_stakes(members, self@.collected(sequence).local_graphs) =~= Seq::empty());
                return None;
            },
        };
        assert(self@.sequences[sequence] == state@);
        assert(valid_sequence(members, self@.sequences[sequence]));
        let graphs = Self::select_quorum_graphs(&self.committee, &state.local_graphs);
        let ghost selected = batch_views(graphs@);
        let ghost collected = state@.local_graphs;
        let ghost sorted = choose|sorted: Seq<BatchView>| #[trigger]
            sorts_by_author(collected, sorted) && is_quorum_prefix(members, sorted, selected);
        proof {
            lemma_sorted_distinct(collected, sorted);
            lemma_same_stake(members, collected, sorted);
        }
        if graphs.len() == 0 {
            assert(graph_stakes(members, selected) =~= Seq::empty());
            return None;
        }
        proof {
            assert(distinct_graphs(selected));
            lemma_graph_stake_bound(members, selected);
        }
        Some(build_global_batch(self.name, &self.committee, sequence, &graphs, &self.observed))
    }

    /// Takes in the global graph of another authority: the pairs that it leaves open
    /// count as claims of its author from then on. Graphs of anyone else are ignored.
    pub fn observe_global_batch(&mut self, batch: &Batch)
        requires
            old(self).wf(),
        ensures
            final(self).wf(),
            final(self)@.name == old(self)@.name,
            final(self)@.members == old(self)@.members,
            final(self)@.sequences == old(self)@.sequences,
            final(self)@.finalized == old(self)@.finalized,
            forall|author: PublicKey| #[trigger]
                final(self)@.observed_of(author) == if author == batch.author && stake_of(
                    old(self)@.members,
                    author,
                ) > 0 {
                    old(self)@.observed_of(author).union(batch.missing_edges@.to_set())
                } else {
                    old(self)@.observed_of(author)
                },
    {
        let ghost before = self@;
        if self.committee.stake(&batch.author) == 0 {
            return ;
        }
        let mut place: usize = 0;
        while place < self.observed.len() && self.observed[place].0 != batch.author
            invariant
                self@ == before,
                place <= self.observed@.len(),
                forall|k: int| 0 <= k < place ==> (#[trigger] before.observed[k]).0 != batch.author,
            decreases self.observed@.len() - place,
        {
            assert(before.observed[place as int].0 == self.observed@[place as int].0);
            place += 1;
        }
        let mut pairs: BTreeSet<(u64, u64)> = BTreeSet::new();
        let ghost mut known = Set::<(u64, u64)>::empty();
        if place < self.observed.len() {
            let entry = self.observed.remove(place);
            pairs = entry.1;
            proof {
                known = entry.1@;
                assert(before.observed[place as int] == (batch.author, known));
            }
            assert(earlier_views(self.observed@) =~= before.observed.remove(place as int));
        } else {
            assert(earlier_views(self.observed@) =~= before.observed);
        }
        let ghost rest = earlier_views(self.observed@);
        assert(pairs@ == known);
        for i in 0..batch.missing_edges.len()
            invariant
                pairs@ == known.union(batch.missing_edges@.take(i as int).to_set()),
        {
            let ghost seen = batch.missing_edges@.take(i as int);
            proof {
                assert(batch.missing_edges@.take(i + 1) =~= seen.push(
                    batch.missing_edges@[i as int],
                ));
                seen.lemma_push_to_set_commute(batch.missing_edges@[i as int]);
            }
            pairs.insert(batch.missing_edges[i]);
            assert(pairs@ =~= known.union(seen.to_set().insert(batch.missing_edges@[i as int])));
        }
        assert(batch.missing_edges@.take(batch.missing_edges@.len() as int)
            =~= batch.missing_edges@);
        let ghost all = pairs@;
        let ghost observed_before = self.observed@;
        self.observed.push((batch.author, pairs));
        proof {
            let after = self@.observed;
            assert(after =~= rest.push((batch.author, all)));
            assert(self@.sequences == before.sequences);
            assert forall|other: u64|
                self@.sequences.contains_key(other) implies valid_sequence(
                self@.members,
                #[trigger] self@.sequences[other],
            ) by {
                assert(valid_sequence(before.members, before.sequences[other]));
            }
            assert forall|i: int, j: int| 0 <= i < j < after.len() implies (
            #[trigger] after[i]).0 != (#[trigger] after[j]).0 by {
                if place < before.observed.len() {
                    let a = if i < place {
                        i
                    } else {
                        i + 1
                    };
                    let b = if j < place {
                        j
                    } else {
                        j + 1
                    };
                    assert(after[i] == before.observed[a]);
                    if j < after.len() - 1 {
                        assert(after[j] == before.observed[b]);
                        assert(before.observed[a].0 != before.observed[b].0);
                    } else {
                        assert(before.observed[place as int].0 == batch.author);
                        if a < place {
                            assert(before.observed[a].0 != before.observed[place as int].0);
                        } else {
                            assert(before.observed[place as int].0 != before.observed[a].0);
                        }
                    }
                } else {
                    assert(after[i] == before.observed[i]);
                    if j < after.len() - 1 {
                        assert(after[j] == before.observed[j]);
                    }
                }
            }
            assert forall|author: PublicKey| #[trigger] self@.observed_of(author) == if author
                == batch.author {
                before.observed_of(author).union(batch.missing_edges@.to_set())
            } else {
                before.observed_of(author)
            } by {
                lemma_observed_moved(before, self@, place as int, batch.author, known, all, author);
                if author == batch.author {
                    assert(self@.observed_of(author) =~= before.observed_of(author).union(
                        batch.missing_edges@.to_set(),
                    ));
                } else {
                    assert(self@.observed_of(author) =~= before.observed_of(author));
                }
            }
        }
    }

    /// Closes a round whose global graph has been delivered.
    pub fn finish_sequence(&mut self, sequence: u64)
        requires
            old(self).wf(),
        ensures
            final(self).wf(),
            final(self)@ == (OrdererView {
                sequences: old(self)@.sequences.remove(sequence),
                finalized: old(self)@.finalized.insert(sequence),
                ..old(self)@
            }),
    {
        let ghost before = self@;
        self.finalized.insert(sequence);
        self.sequences.remove(&sequence);
        assert(self@.sequences =~= before.sequences.remove(sequence));
        assert forall|other: u64| self@.sequences.contains_key(other) implies valid_sequence(
            self@.members,
            #[trigger] self@.sequences[other],
        ) by {
            assert(valid_sequence(before.members, before.sequences[other]));
        }
    }
}

/// The stake that has acknowledged a global graph, our own included.
pub struct Acknowledgements {
    pub stake: u64,
    pub quorum: u64,
    /// Whether anyone was asked at all.
    pub awaited: bool,
}

impl Acknowledgements {
    /// Our own stake; `peers` says how many others were asked.
    pub fn new(committee: &Committee, name: &PublicKey, peers: usize) -> (acks: Self)
        requires
            committee.wf(),
        ensures
            acks.stake == stake_of(committee@, *name),
            acks.quorum == quorum(committee@),
            acks.awaited == (peers > 0),
    {
        Acknowledgements {
            stake: committee.stake(name) as u64,
            quorum: committee.quorum_threshold() as u64,
            awaited: peers > 0,
        }
    }

    /// Counts the acknowledgement of `peer`.
    pub fn acknowledge(&mut self, committee: &Committee, peer: &PublicKey)
        requires
            old(self).stake + stake_of(committee@, *peer) <= u64::MAX,
        ensures
            final(self).stake == old(self).stake + stake_of(committee@, *peer),
            final(self).quorum == old(self).quorum,
            final(self).awaited == old(self).awaited,
    {
        self.stake = self.stake + committee.stake(peer) as u64;
    }

    /// Whether the graph can be delivered: a quorum has it, or there is nobody to ask.
    pub fn reached_quorum(&self) -> (reached: bool)
        ensures
            reached == (!self.awaited || self.stake >= self.quorum),
    {
        !self.awaited || self.stake >= self.quorum
    }
}

/// A local graph that arrives twice counts once.
pub proof fn lemma_repeated_graph_counts_once(
    members: Seq<(PublicKey, Stake)>,
    state: SequenceView,
    graph: BatchView,
    from_our_quorum: bool,
    now: u64,
    later: u64,
)
    requires
        total_stake(members) <= Stake::MAX,
        valid_sequence(members, state),
    ensures
        with_graph(
            members,
            with_graph(members, state, graph, from_our_quorum, now),
            graph,
            from_our_quorum,
            later,
        ) == with_graph(members, state, graph, from_our_quorum, now),
{
    let once = with_graph(members, state, graph, from_our_quorum, now);
    if !has_author(state.local_graphs, graph.author) {
        let more = state.local_graphs.push(graph);
        assert forall|i: int, j: int| 0 <= i < j < more.len() implies (#[trigger] more[i]).author
            != (#[trigger] more[j]).author by {
            assert(more[i] == state.local_graphs[i]);
        }
        lemma_graph_stake_bound(members, more);
        lemma_push_stake(members, state.local_graphs, graph);
        assert(once.local_graphs[state.local_graphs.len() as int] == graph);
    }
    assert(has_author(once.local_graphs, graph.author));
}

/// A round that is ready has a global graph.
pub proof fn lemma_ready_rounds_have_a_quorum(orderer: &GlobalOrderer, sequence: u64, now: u64)
    requires
        orderer.wf(),
        orderer@.sequences.contains_key(sequence),
        is_settled(orderer@.members, orderer@.sequences[sequence], now),
    ensures
        stake_sum(graph_stakes(orderer@.members, orderer@.collected(sequence).local_graphs))
            >= quorum(orderer@.members),
{
    assert(valid_sequence(orderer@.members, orderer@.sequences[sequence]));
}

/// The stake of the entries of earlier rounds that claim `p`, where a graph of the same author does
/// not.
spec fn earlier_weight(
    members: Seq<(PublicKey, Stake)>,
    graphs: Seq<BatchView>,
    earlier: Seq<(PublicKey, Set<(u64, u64)>)>,
    nodes: Set<u64>,
    p: (u64, u64),
) -> nat
    decreases earlier.len(),
{
    if earlier.len() == 0 {
        0
    } else {
        earlier_weight(members, graphs, earlier.drop_last(), nodes, p) + entry_weight(
            members,
            graphs,
            earlier.last(),
            nodes,
            p,
        )
    }
}

spec fn entry_weight(
    members: Seq<(PublicKey, Stake)>,
    graphs: Seq<BatchView>,
    entry: (PublicKey, Set<(u64, u64)>),
    nodes: Set<u64>,
    p: (u64, u64),
) -> nat {
    if proper_edges(nodes, entry.1).difference(claimed_by(graphs, entry.0)).contains(p) {
        stake_of(members, entry.0) as nat
    } else {
        0
    }
}

/// The pairs that the entries of `author` hold.
spec fn pairs_of(earlier: Seq<(PublicKey, Set<(u64, u64)>)>, author: PublicKey) -> Set<(u64, u64)> {
    Set::new(
        |p: (u64, u64)|
            exists|i: int|
                0 <= i < earlier.len() && (#[trigger] earlier[i]).0 == author
                    && earlier[i].1.contains(p),
    )
}

/// The weight of a claim is that of the graphs and that of earlier rounds.
proof fn lemma_claim_weight(
    members: Seq<(PublicKey, Stake)>,
    graphs: Seq<BatchView>,
    earlier: Seq<(PublicKey, Set<(u64, u64)>)>,
    nodes: Set<u64>,
    p: (u64, u64),
)
    ensures
        claim_weight(members, graphs, earlier, nodes, p) == claim_weight(
            members,
            graphs,
            Seq::empty(),
            nodes,
            p,
        ) + earlier_weight(members, graphs, earlier, nodes, p),
    decreases earlier.len(),
{
    let none = Seq::<(PublicKey, Set<(u64, u64)>)>::empty();
    if earlier.len() == 0 {
        assert(earlier =~= none);
    } else {
        let fewer = earlier.drop_last();
        lemma_claim_weight(members, graphs, fewer, nodes, p);
        assert(claim_stakes(members, graphs, earlier).drop_last() =~= claim_stakes(
            members,
            graphs,
            fewer,
        ));
        assert(claim_votes(graphs, earlier, nodes).drop_last() =~= claim_votes(
            graphs,
            fewer,
            nodes,
        ));
    }
}

/// The weight of entries without one of them.
proof fn lemma_earlier_weight_remove(
    members: Seq<(PublicKey, Stake)>,
    graphs: Seq<BatchView>,
    earlier: Seq<(PublicKey, Set<(u64, u64)>)>,
    nodes: Set<u64>,
    p: (u64, u64),
    k: int,
)
    requires
        0 <= k < earlier.len(),
    ensures
        earlier_weight(members, graphs, earlier, nodes, p) == earlier_weight(
            members,
            graphs,
            earlier.remove(k),
            nodes,
            p,
        ) + entry_weight(members, graphs, earlier[k], nodes, p),
    decreases earlier.len(),
{
    let fewer = earlier.drop_last();
    if k == earlier.len() - 1 {
        assert(earlier.remove(k) =~= fewer);
    } else {
        lemma_earlier_weight_remove(members, graphs, fewer, nodes, p, k);
        assert(earlier.remove(k).drop_last() =~= fewer.remove(k));
    }
}

/// The weight of entries rests on the pairs that each author has, not on the order of the entries.
proof fn lemma_earlier_weight_same(
    members: Seq<(PublicKey, Stake)>,
    graphs: Seq<BatchView>,
    s: Seq<(PublicKey, Set<(u64, u64)>)>,
    t: Seq<(PublicKey, Set<(u64, u64)>)>,
    nodes: Set<u64>,
    p: (u64, u64),
)
    requires
        distinct_authors(s),
        distinct_authors(t),
        forall|author: PublicKey| #[trigger] pairs_of(s, author) == pairs_of(t, author),
    ensures
        earlier_weight(members, graphs, s, nodes, p) == earlier_weight(
            members,
            graphs,
            t,
            nodes,
            p,
        ),
    decreases s.len() + t.len(),
{
    if s.len() > 0 {
        let (author, pairs) = s.last();
        let fewer = s.drop_last();
        assert(distinct_authors(fewer));
        lemma_pairs_of(s, s.len() - 1);
        if exists|k: int| 0 <= k < t.len() && (#[trigger] t[k]).0 == author {
            let k = choose|k: int| 0 <= k < t.len() && (#[trigger] t[k]).0 == author;
            let rest = t.remove(k);
            lemma_pairs_of(t, k);
            assert(pairs_of(s, author) == pairs_of(t, author));
            assert(t[k].1 == pairs);
            lemma_distinct_remove(t, k);
            assert forall|other: PublicKey| #[trigger]
                pairs_of(fewer, other) == pairs_of(rest, other) by {
                lemma_pairs_of_remove(s, s.len() - 1, other);
                lemma_pairs_of_remove(t, k, other);
                assert(s.remove(s.len() - 1) =~= fewer);
                assert(pairs_of(s, other) == pairs_of(t, other));
            }
            lemma_earlier_weight_same(members, graphs, fewer, rest, nodes, p);
            lemma_earlier_weight_remove(members, graphs, t, nodes, p, k);
        } else {
            assert(pairs_of(t, author) =~= Set::empty());
            assert(pairs_of(s, author) == pairs_of(t, author));
            assert(pairs =~= Set::empty());
            assert forall|other: PublicKey| #[trigger]
                pairs_of(fewer, other) == pairs_of(t, other) by {
                lemma_pairs_of_remove(s, s.len() - 1, other);
                assert(s.remove(s.len() - 1) =~= fewer);
                assert(pairs_of(s, other) == pairs_of(t, other));
            }
            lemma_earlier_weight_same(members, graphs, fewer, t, nodes, p);
        }
    } else if t.len() > 0 {
        let (author, pairs) = t.last();
        let fewer = t.drop_last();
        assert(distinct_authors(fewer));
        lemma_pairs_of(t, t.len() - 1);
        assert(pairs_of(s, author) =~= Set::empty());
        assert(pairs_of(s, author) == pairs_of(t, author));
        assert(pairs =~= Set::empty());
        assert forall|other: PublicKey| #[trigger] pairs_of(s, other) == pairs_of(fewer, other) by {
            lemma_pairs_of_remove(t, t.len() - 1, other);
            assert(t.remove(t.len() - 1) =~= fewer);
            assert(pairs_of(s, other) == pairs_of(t, other));
        }
        lemma_earlier_weight_same(members, graphs, s, fewer, nodes, p);
    }
}

/// The pairs of an author are those of its entry.
proof fn lemma_pairs_of(earlier: Seq<(PublicKey, Set<(u64, u64)>)>, k: int)
    requires
        distinct_authors(earlier),
        0 <= k < earlier.len(),
    ensures
        pairs_of(earlier, earlier[k].0) == earlier[k].1,
{
    assert forall|p: (u64, u64)|
        pairs_of(earlier, earlier[k].0).contains(p) <==> earlier[k].1.contains(p) by {
        if pairs_of(earlier, earlier[k].0).contains(p) {
            let i = choose|i: int|
                0 <= i < earlier.len() && (#[trigger] earlier[i]).0 == earlier[k].0
                    && earlier[i].1.contains(p);
            if i < k {
                assert(earlier[i].0 != earlier[k].0);
            } else if k < i {
                assert(earlier[k].0 != earlier[i].0);
            }
        }
    }
    assert(pairs_of(earlier, earlier[k].0) =~= earlier[k].1);
}

/// Without its entry, an author has no pairs; the others keep theirs.
proof fn lemma_pairs_of_remove(
    earlier: Seq<(PublicKey, Set<(u64, u64)>)>,
    k: int,
    other: PublicKey,
)
    requires
        distinct_authors(earlier),
        0 <= k < earlier.len(),
    ensures
        pairs_of(earlier.remove(k), other) == if other == earlier[k].0 {
            Set::<(u64, u64)>::empty()
        } else {
            pairs_of(earlier, other)
        },
{
    let rest = earlier.remove(k);
    if other == earlier[k].0 {
        assert forall|p: (u64, u64)| !pairs_of(rest, other).contains(p) by {
            if pairs_of(rest, other).contains(p) {
                let i = choose|i: int|
                    0 <= i < rest.len() && (#[trigger] rest[i]).0 == other && rest[i].1.contains(p);
                if i < k {
                    assert(earlier[i].0 != earlier[k].0);
                } else {
                    assert(earlier[k].0 != earlier[i + 1].0);
                }
            }
        }
        assert(pairs_of(rest, other) =~= Set::empty());
    } else {
        assert forall|p: (u64, u64)|
            pairs_of(rest, other).contains(p) <==> pairs_of(earlier, other).contains(p) by {
            if pairs_of(rest, other).contains(p) {
                let i = choose|i: int|
                    0 <= i < rest.len() && (#[trigger] rest[i]).0 == other && rest[i].1.contains(p);
                let j = if i < k {
                    i
                } else {
                    i + 1
                };
                assert(earlier[j] == rest[i]);
            }
            if pairs_of(earlier, other).contains(p) {
                let i = choose|i: int|
                    0 <= i < earlier.len() && (#[trigger] earlier[i]).0 == other
                        && earlier[i].1.contains(p);
                let j = if i < k {
                    i
                } else {
                    i - 1
                };
                assert(earlier[i] == rest[j]);
            }
        }
        assert(pairs_of(rest, other) =~= pairs_of(earlier, other));
    }
}

/// Entries of different authors stay so without one of them.
proof fn lemma_distinct_remove(earlier: Seq<(PublicKey, Set<(u64, u64)>)>, k: int)
    requires
        distinct_authors(earlier),
        0 <= k < earlier.len(),
    ensures
        distinct_authors(earlier.remove(k)),
{
    let rest = earlier.remove(k);
    assert forall|i: int, j: int| 0 <= i < j < rest.len() implies (#[trigger] rest[i]).0 != (
    #[trigger] rest[j]).0 by {
        let a = if i < k {
            i
        } else {
            i + 1
        };
        let b = if j < k {
            j
        } else {
            j + 1
        };
        assert(rest[i] == earlier[a] && rest[j] == earlier[b]);
    }
}

/// Replicas agree: two orderers that have collected the same local graphs for a round, and have
/// observed the same of each authority, derive the same transactions, edges and missing pairs,
/// whatever came in first.
pub proof fn lemma_replicas_agree(
    one: OrdererView,
    two: OrdererView,
    sequence: u64,
    selected: Seq<BatchView>,
    chosen: Seq<BatchView>,
    a: BatchView,
    b: BatchView,
)
    requires
        one.members == two.members,
        distinct_authors(one.observed),
        distinct_authors(two.observed),
        forall|author: PublicKey| #[trigger] one.observed_of(author) == two.observed_of(author),
        one.collected(sequence).local_graphs.to_set()
            == two.collected(sequence).local_graphs.to_set(),
        is_quorum_selection(one.members, one.collected(sequence).local_graphs, selected),
        is_quorum_selection(two.members, two.collected(sequence).local_graphs, chosen),
        is_global_batch(one.name, one.members, sequence, selected, one.observed, a),
        is_global_batch(two.name, two.members, sequence, chosen, two.observed, b),
    ensures
        a.transactions == b.transactions,
        a.edges == b.edges,
        a.missing_edges == b.missing_edges,
{
    let members = one.members;
    lemma_selection_ignores_arrival_order(
        members,
        one.collected(sequence).local_graphs,
        two.collected(sequence).local_graphs,
        selected,
        chosen,
    );
    let nodes = global_nodes(members, selected);
    assert forall|author: PublicKey| #[trigger]
        pairs_of(one.observed, author) == pairs_of(two.observed, author) by {
        assert(pairs_of(one.observed, author) =~= one.observed_of(author));
        assert(pairs_of(two.observed, author) =~= two.observed_of(author));
    }
    assert forall|p: (u64, u64)| #[trigger]
        claim_weight(members, selected, one.observed, nodes, p) == claim_weight(
            members,
            selected,
            two.observed,
            nodes,
            p,
        ) by {
        lemma_claim_weight(members, selected, one.observed, nodes, p);
        lemma_claim_weight(members, selected, two.observed, nodes, p);
        lemma_earlier_weight_same(members, selected, one.observed, two.observed, nodes, p);
    }
    assert(claim_weights(members, selected, one.observed) =~= claim_weights(
        members,
        selected,
        two.observed,
    ));
    let renamed = BatchView { author: one.name, ..b };
    assert(is_global_batch(one.name, members, sequence, selected, one.observed, renamed));
    lemma_global_batch_unique(one.name, members, sequence, selected, one.observed, a, renamed);
}

} // verus!
