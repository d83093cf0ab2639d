//! What an orderer guarantees of a round: whose graphs count for it, when it is ready, and which
//! graphs its global graph is derived from.

use vstd::prelude::*;
use crate::batch::{bytes_lt, BatchView, PublicKey, Stake};
use crate::committee::{lemma_quorums_intersect, stake_of, total_stake};
use crate::evidence::graph_stakes;
use crate::global_batch::lemma_graph_stake_bound;
use crate::global_orderer::{
    distinct_graphs, has_author, is_quorum_prefix, is_quorum_selection, is_settled,
    lemma_push_stake, lemma_same_stake, lemma_sorted_distinct, sorts_by_author, valid_sequence,
    with_graph, GraphOutcome, OrdererView, SequenceView,
};
use crate::votes::stake_sum;

verus! {

/// A graph counts exactly if its round is not finalized yet, its author has stake, and it is our own
/// where it came in as such.
pub proof fn lemma_which_graphs_count(view: OrdererView, graph: BatchView, from_our_quorum: bool)
    ensures
        view.outcome(graph, from_our_quorum) == GraphOutcome::Recorded <==>
            !view.finalized.contains(graph.sequence) && stake_of(view.members, graph.author) > 0
            && (from_our_quorum ==> graph.author == view.name),
        view.finalized.contains(graph.sequence) <==> view.outcome(graph, from_our_quorum)
            == GraphOutcome::Finalized,
        !view.finalized.contains(graph.sequence) && stake_of(view.members, graph.author) == 0
            <==> view.outcome(graph, from_our_quorum) == GraphOutcome::UnknownAuthor,
        view.outcome(graph, from_our_quorum) == GraphOutcome::WrongAuthor ==> from_our_quorum
            && graph.author != view.name,
{
}

/// Of each author the first graph counts, and with it the stake of the author, once.
pub proof fn lemma_each_author_counts_once(
    members: Seq<(PublicKey, Stake)>,
    state: SequenceView,
    graph: BatchView,
    from_our_quorum: bool,
    now: u64,
)
    requires
        total_stake(members) <= Stake::MAX,
        valid_sequence(members, state),
    ensures
        ({
            let after = with_graph(members, state, graph, from_our_quorum, now);
            let known = exists|i: int|
                0 <= i < state.local_graphs.len() && (#[trigger] state.local_graphs[i]).author
                    == graph.author;
            &&& known ==> after.local_graphs == state.local_graphs && after.collected_stake
                == state.collected_stake
            &&& !known ==> after.local_graphs == state.local_graphs.push(graph)
                && after.collected_stake == state.collected_stake + stake_of(
                members,
                graph.author,
            )
            &&& after.own_received <==> state.own_received || from_our_quorum
            &&& forall|i: int, j: int|
                0 <= i < j < after.local_graphs.len() ==> (#[trigger] after.local_graphs[i]).author
                    != (#[trigger] after.local_graphs[j]).author
            &&& after.collected_stake == stake_sum(graph_stakes(members, after.local_graphs))
        }),
{
    let after = with_graph(members, state, graph, from_our_quorum, now);
    if !has_author(state.local_graphs, graph.author) {
        let more = state.local_graphs.push(graph);
        assert forall|i: int, j: int| 0 <= i < j < more.len() implies (#[trigger] more[i]).author
            != (#[trigger] more[j]).author by {
            assert(more[i] == state.local_graphs[i]);
        }
        lemma_graph_stake_bound(members, more);
        lemma_push_stake(members, state.local_graphs, graph);
    }
}

/// A quorum is reached when our own graph is there and all authors but the faulty ones can have been
/// heard; the time is noted once, and then stays.
pub proof fn lemma_quorum_time_is_noted_once(
    members: Seq<(PublicKey, Stake)>,
    state: SequenceView,
    graph: BatchView,
    from_our_quorum: bool,
    now: u64,
    faulty: nat,
)
    requires
        total_stake(members) <= Stake::MAX,
        valid_sequence(members, state),
        3 * faulty < total_stake(members) <= 3 * faulty + 3,
    ensures
        ({
            let after = with_graph(members, state, graph, from_our_quorum, now);
            &&& state.quorum_reached_at is Some ==> after.quorum_reached_at
                == state.quorum_reached_at
            &&& state.quorum_reached_at is None ==> (after.quorum_reached_at == Some(now) <==>
                after.own_received && after.collected_stake + faulty >= total_stake(members))
            &&& state.quorum_reached_at is None && after.quorum_reached_at is Some
                ==> after.quorum_reached_at == Some(now)
        }),
{
    lemma_quorums_intersect(members, Seq::empty(), Seq::empty(), faulty);
    lemma_each_author_counts_once(members, state, graph, from_our_quorum, now);
}

/// A round is ready exactly if our own graph is there, all authors but the faulty ones can have been
/// heard, and ten milliseconds have passed since then.
pub proof fn lemma_ready_rounds(
    members: Seq<(PublicKey, Stake)>,
    state: SequenceView,
    now: u64,
    faulty: nat,
)
    requires
        3 * faulty < total_stake(members) <= 3 * faulty + 3,
    ensures
        is_settled(members, state, now) <==> state.own_received && state.collected_stake + faulty
            >= total_stake(members) && state.quorum_reached_at is Some && now
            - state.quorum_reached_at->0 >= 10_000_000,
{
    lemma_quorums_intersect(members, Seq::empty(), Seq::empty(), faulty);
}

/// From the graph that completes a quorum on it takes ten milliseconds until the round is ready,
/// whatever comes in meanwhile.
pub proof fn lemma_rounds_settle(
    members: Seq<(PublicKey, Stake)>,
    state: SequenceView,
    graph: BatchView,
    from_our_quorum: bool,
    reached: u64,
    other: BatchView,
    other_ours: bool,
    later: u64,
    now: u64,
)
    requires
        total_stake(members) <= Stake::MAX,
        valid_sequence(members, state),
        state.quorum_reached_at is None,
        with_graph(members, state, graph, from_our_quorum, reached).quorum_reached_at is Some,
    ensures
        ({
            let first = with_graph(members, state, graph, from_our_quorum, reached);
            let second = with_graph(members, first, other, other_ours, later);
            &&& is_settled(members, first, now) <==> now >= reached + 10_000_000
            &&& is_settled(members, second, now) <==> now >= reached + 10_000_000
        }),
{
    let first = with_graph(members, state, graph, from_our_quorum, reached);
    lemma_each_author_counts_once(members, state, graph, from_our_quorum, reached);
    lemma_each_author_counts_once(members, first, other, other_ours, later);
}

/// A selected quorum consists of graphs that were collected, of different authors, with the stake of
/// all but the faulty ones. Every one of them is needed: without the last one it is less. Authors are
/// taken in the order of their keys.
pub proof fn lemma_selected_quorum(
    members: Seq<(PublicKey, Stake)>,
    graphs: Seq<BatchView>,
    selected: Seq<BatchView>,
    faulty: nat,
)
    requires
        distinct_graphs(graphs),
        is_quorum_selection(members, graphs, selected),
        3 * faulty < total_stake(members) <= 3 * faulty + 3,
    ensures
        stake_sum(graph_stakes(members, graphs)) + faulty < total_stake(members) ==> selected.len()
            == 0,
        stake_sum(graph_stakes(members, graphs)) + faulty >= total_stake(members) ==> selected.len()
            > 0 && stake_sum(graph_stakes(members, selected)) + faulty >= total_stake(members)
            && stake_sum(graph_stakes(members, selected.drop_last())) + faulty < total_stake(
            members,
        ),
        forall|i: int| 0 <= i < selected.len() ==> graphs.contains(#[trigger] selected[i]),
        forall|i: int, j: int|
            0 <= i < j < selected.len() ==> bytes_lt(
                (#[trigger] selected[i]).author.0@,
                (#[trigger] selected[j]).author.0@,
            ),
        forall|i: int, k: int|
            0 <= i < selected.len() && 0 <= k < graphs.len() && !selected.contains(
                #[trigger] graphs[k],
            ) ==> bytes_lt((#[trigger] selected[i]).author.0@, graphs[k].author.0@),
{
    lemma_quorums_intersect(members, Seq::empty(), Seq::empty(), faulty);
    let sorted = choose|sorted: Seq<BatchView>| #[trigger]
        sorts_by_author(graphs, sorted) && is_quorum_prefix(members, sorted, selected);
    lemma_sorted_distinct(graphs, sorted);
    lemma_same_stake(members, graphs, sorted);
    let n = selected.len() as int;
    if stake_sum(graph_stakes(members, graphs)) + faulty >= total_stake(members) {
        if n == 0 {
            assert(graph_stakes(members, selected) =~= Seq::empty());
        }
        assert(selected.drop_last() =~= sorted.take(n - 1));
        assert forall|i: int| 0 <= i < n implies graphs.contains(#[trigger] selected[i]) by {
            assert(selected[i] == sorted[i]);
            assert(sorted.to_set().contains(sorted[i]));
            assert(graphs.to_set().contains(sorted[i]));
        }
        assert forall|i: int, j: int| 0 <= i < j < n implies bytes_lt(
            (#[trigger] selected[i]).author.0@,
            (#[trigger] selected[j]).author.0@,
        ) by {
            assert(selected[i] == sorted[i] && selected[j] == sorted[j]);
        }
        assert forall|i: int, k: int|
            0 <= i < n && 0 <= k < graphs.len() && !selected.contains(
                #[trigger] graphs[k],
            ) implies bytes_lt((#[trigger] selected[i]).author.0@, graphs[k].author.0@) by {
            assert(graphs.to_set().contains(graphs[k]));
            assert(sorted.to_set().contains(graphs[k]));
            let l = choose|l: int| 0 <= l < sorted.len() && sorted[l] == graphs[k];
            if l < n {
                assert(selected[l] == graphs[k]);
            }
            assert(selected[i] == sorted[i]);
            assert(bytes_lt(sorted[i].author.0@, sorted[l].author.0@));
        }
    }
}

} // verus!
