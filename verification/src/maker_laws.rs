//! What a batch maker guarantees: which orders a sealed batch states and which it leaves open, and
//! what is known of transactions as they are sealed and executed.

use vstd::prelude::*;
use crate::batch::BatchView;
use crate::control::{canonical_pair, ControlView, InfoView};
use crate::maker_model::{
    is_sealed_batch, least, lemma_prune_frontiers, lemma_standard_list, pairs_with, partners_of,
    queue_of, stale_of, standard_list, write_all, writes_before, Arrival, MakerView, TxState,
};
use crate::transaction::{standard_id, standard_id_and_key};

verus! {

/// The transaction at position `a` is a standard one with the identifier `id` that writes `key`.
pub open spec fn writes(txs: Seq<Seq<u8>>, a: int, id: u64, key: u8) -> bool {
    0 <= a < txs.len() && standard_id_and_key(txs[a]) == Some((id, key))
}

/// How many standard transactions there are before position `a`.
spec fn rank(txs: Seq<Seq<u8>>, a: int) -> int {
    standard_list(txs.take(a)).len() as int
}

/// The list of a prefix is a prefix of the list.
proof fn lemma_list_prefix(txs: Seq<Seq<u8>>, a: int)
    requires
        0 <= a <= txs.len(),
    ensures
        rank(txs, a) <= standard_list(txs).len(),
        standard_list(txs).take(rank(txs, a)) == standard_list(txs.take(a)),
    decreases txs.len(),
{
    if a == txs.len() {
        assert(txs.take(a) =~= txs);
        assert(standard_list(txs).take(rank(txs, a)) =~= standard_list(txs));
    } else {
        let fewer = txs.drop_last();
        lemma_list_prefix(fewer, a);
        assert(fewer.take(a) =~= txs.take(a));
        assert(standard_list(txs).take(rank(txs, a)) =~= standard_list(fewer).take(rank(txs, a)));
    }
}

proof fn lemma_rank_step(txs: Seq<Seq<u8>>, a: int)
    requires
        0 <= a < txs.len(),
    ensures
        rank(txs, a + 1) == rank(txs, a) + (if standard_id_and_key(txs[a]) is Some {
            1int
        } else {
            0
        }),
        standard_id_and_key(txs[a]) matches Some(entry) ==> rank(txs, a) < standard_list(txs).len()
            && standard_list(txs)[rank(txs, a)] == entry,
{
    let more = txs.take(a + 1);
    assert(more.drop_last() =~= txs.take(a));
    assert(more.last() == txs[a]);
    lemma_list_prefix(txs, a + 1);
    if let Some(entry) = standard_id_and_key(txs[a]) {
        assert(standard_list(more)[rank(txs, a)] == entry);
        assert(standard_list(txs).take(rank(txs, a + 1))[rank(txs, a)] == entry);
    }
}

proof fn lemma_rank_grows(txs: Seq<Seq<u8>>, a: int, b: int)
    requires
        0 <= a <= b <= txs.len(),
    ensures
        rank(txs, a) <= rank(txs, b),
        a < b && standard_id_and_key(txs[a]) is Some ==> rank(txs, a) < rank(txs, b),
    decreases b - a,
{
    if a < b {
        lemma_rank_step(txs, b - 1);
        lemma_rank_grows(txs, a, b - 1);
    }
}

/// Each entry of the list stands for a transaction.
proof fn lemma_place(txs: Seq<Seq<u8>>, i: int) -> (a: int)
    requires
        0 <= i < standard_list(txs).len(),
    ensures
        writes(txs, a, standard_list(txs)[i].0, standard_list(txs)[i].1),
        rank(txs, a) == i,
    decreases txs.len(),
{
    let fewer = txs.drop_last();
    let list = standard_list(txs);
    let shorter = standard_list(fewer);
    assert(txs.take(txs.len() - 1) =~= fewer);
    if i < shorter.len() {
        let a = lemma_place(fewer, i);
        assert(fewer.take(a) =~= txs.take(a));
        assert(fewer[a] == txs[a]);
        assert(list[i] == shorter[i]);
        a
    } else {
        txs.len() - 1
    }
}

proof fn lemma_record_all_keeps(view: MakerView, list: Seq<(u64, u8)>)
    ensures
        view.record_all(list) == (MakerView {
            known: view.record_all(list).known,
            unprocessed: view.record_all(list).unprocessed,
            ..view
        }),
    decreases list.len(),
{
    if list.len() > 0 {
        lemma_record_all_keeps(view, list.drop_last());
    }
}

proof fn lemma_write_all(last_writer: Map<u8, u64>, list: Seq<(u64, u8)>, key: u8)
    ensures
        forall|j: int|
            #![trigger list[j]]
            0 <= j < list.len() && list[j].1 == key && (forall|k: int|
                j < k < list.len() ==> (#[trigger] list[k]).1 != key) ==> write_all(
                last_writer,
                list,
            ).contains_key(key) && write_all(last_writer, list)[key] == list[j].0,
        (forall|k: int| 0 <= k < list.len() ==> (#[trigger] list[k]).1 != key) ==> (write_all(
            last_writer,
            list,
        ).contains_key(key) <==> last_writer.contains_key(key)) && write_all(
            last_writer,
            list,
        )[key] == last_writer[key],
    decreases list.len(),
{
    if list.len() > 0 {
        let fewer = list.drop_last();
        let last = list.len() - 1;
        lemma_write_all(last_writer, fewer, key);
        assert forall|j: int|
            #![trigger list[j]]
            0 <= j < list.len() && list[j].1 == key && (forall|k: int|
                j < k < list.len() ==> (#[trigger] list[k]).1 != key) implies write_all(
            last_writer,
            list,
        ).contains_key(key) && write_all(last_writer, list)[key] == list[j].0 by {
            if j < last {
                assert(list[last].1 != key);
                assert(fewer[j] == list[j]);
                assert forall|k: int| j < k < fewer.len() implies (#[trigger] fewer[k]).1 != key by {
                    assert(fewer[k] == list[k]);
                }
            }
        }
        if forall|k: int| 0 <= k < list.len() ==> (#[trigger] list[k]).1 != key {
            assert(list[last].1 != key);
            assert forall|k: int| 0 <= k < fewer.len() implies (#[trigger] fewer[k]).1 != key by {
                assert(fewer[k] == list[k]);
            }
        }
    }
}

/// Once a batch is sealed, the last writer of a state is the last transaction of the batch that
/// writes it.
pub proof fn lemma_last_writer_is_the_last(view: MakerView, a: int, id: u64, key: u8)
    requires
        writes(view.current, a, id, key),
        forall|b: int, other: u64|
            a < b < view.current.len() ==> !#[trigger] writes(view.current, b, other, key),
    ensures
        view.seal().last_writer.contains_key(key),
        view.seal().last_writer[key] == id,
{
    let txs = view.current;
    let list = standard_list(txs);
    let j = rank(txs, a);
    lemma_seal_keeps(view);
    lemma_rank_step(txs, a);
    lemma_write_all(view.last_writer, list, key);
    assert forall|k: int| j < k < list.len() implies (#[trigger] list[k]).1 != key by {
        let b = lemma_place(txs, k);
        if b <= a {
            lemma_rank_grows(txs, b, a);
        }
        assert(writes(txs, b, list[k].0, list[k].1));
    }
    assert(list[j] == (id, key));
}

/// A state that the batch does not write keeps its last writer.
pub proof fn lemma_other_last_writers_stay(view: MakerView, key: u8)
    requires
        forall|b: int, other: u64| !#[trigger] writes(view.current, b, other, key),
    ensures
        view.seal().last_writer.contains_key(key) <==> view.last_writer.contains_key(key),
        view.seal().last_writer[key] == view.last_writer[key],
{
    let txs = view.current;
    let list = standard_list(txs);
    lemma_seal_keeps(view);
    lemma_write_all(view.last_writer, list, key);
    assert forall|k: int| 0 <= k < list.len() implies (#[trigger] list[k]).1 != key by {
        let b = lemma_place(txs, k);
        assert(writes(txs, b, list[k].0, list[k].1));
    }
}

/// The state before the sealed transactions are recorded.
spec fn cleared(view: MakerView) -> MakerView {
    let list = standard_list(view.current);
    MakerView {
        current: Seq::empty(),
        staged: Set::empty(),
        size: 0,
        last_writer: write_all(view.last_writer, list),
        next_sequence: (view.next_sequence + 1) as u64,
        ..view.prune_frontiers(list)
    }
}

/// What sealing leaves alone.
proof fn lemma_seal_keeps(view: MakerView)
    ensures
        view.seal() == cleared(view).record_all(standard_list(view.current)),
        view.seal() == (MakerView {
            current: Seq::empty(),
            staged: Set::empty(),
            size: 0,
            last_writer: write_all(view.last_writer, standard_list(view.current)),
            next_sequence: (view.next_sequence + 1) as u64,
            known: view.seal().known,
            unprocessed: view.seal().unprocessed,
            frontier: view.seal().frontier,
            frontier_ids: view.seal().frontier_ids,
            ..view
        }),
{
    let list = standard_list(view.current);
    lemma_prune_frontiers(view, list, 0);
    lemma_record_all_keeps(cleared(view), list);
}

/// Sealing empties the open batch and moves on to the next one; what was executed and which pairs
/// are open stays as it was.
pub proof fn lemma_sealing_starts_a_new_batch(view: MakerView)
    requires
        view.next_sequence < u64::MAX,
    ensures
        view.seal().current.len() == 0,
        view.seal().staged == Set::<u64>::empty(),
        view.seal().size == 0,
        view.seal().next_sequence == view.next_sequence + 1,
        view.seal().processed == view.processed,
        view.seal().processed_fifo == view.processed_fifo,
        view.seal().pairs == view.pairs,
        view.seal().partners == view.partners,
        view.seal().pair_fifo == view.pair_fifo,
        view.seal().stale == view.stale,
        view.seal().pending_observations == view.pending_observations,
        view.seal().pending_processed == view.pending_processed,
        view.seal().name == view.name,
        view.seal().batch_size == view.batch_size,
{
    lemma_seal_keeps(view);
}

/// A transaction has an open order with some other one.
pub open spec fn has_partner(view: MakerView, id: u64) -> bool {
    view.partners.contains_key(id) && exists|y: u64| #[trigger] view.partners[id].contains(y)
}

/// A sealed transaction that was not executed has an open order with some other one.
pub open spec fn is_unsettled(view: MakerView, id: u64) -> bool {
    view.known.contains_key(id) && !view.processed.contains(id) && has_partner(view, id)
}

/// `id` is the first of the frontier of a state that is still sealed, not executed, and in an open
/// pair.
pub open spec fn is_first_open(view: MakerView, key: u8, i: int, id: u64) -> bool {
    &&& view.frontier.contains_key(key)
    &&& 0 <= i < view.frontier[key].len()
    &&& view.frontier[key][i] == id
    &&& view.known.contains_key(id) && has_partner(view, id)
    &&& forall|j: int|
        0 <= j < i ==> !(view.known.contains_key(#[trigger] view.frontier[key][j]) && has_partner(
            view,
            view.frontier[key][j],
        ))
}

proof fn lemma_partner(view: MakerView, id: u64)
    ensures
        view.has_missing_partners(id) <==> has_partner(view, id),
{
    if view.partners.contains_key(id) && view.partners[id] != Set::<u64>::empty() {
        assert(exists|y: u64| #[trigger] view.partners[id].contains(y)) by {
            if forall|y: u64| !#[trigger] view.partners[id].contains(y) {
                assert(view.partners[id] =~= Set::empty());
            }
        }
    }
}

proof fn lemma_first_open(view: MakerView, queue: Seq<u64>) -> (n: int)
    ensures
        0 <= n <= queue.len(),
        view.drop_dead(queue) == queue.skip(n),
        forall|j: int|
            0 <= j < n ==> !(view.known.contains_key(#[trigger] queue[j]) && has_partner(
                view,
                queue[j],
            )),
        n < queue.len() ==> view.known.contains_key(queue[n]) && has_partner(view, queue[n]),
    decreases queue.len(),
{
    if queue.len() > 0 {
        lemma_partner(view, queue[0]);
    }
    if queue.len() > 0 && !view.is_live(queue[0]) {
        let rest = queue.drop_first();
        let n = lemma_first_open(view, rest);
        assert(rest.skip(n) =~= queue.skip(n + 1));
        assert forall|j: int| 0 <= j < n + 1 implies !(view.known.contains_key(
            #[trigger] queue[j],
        ) && has_partner(view, queue[j])) by {
            if j > 0 {
                assert(rest[j - 1] == queue[j]);
            }
        }
        n + 1
    } else {
        assert(queue.skip(0) =~= queue);
        0
    }
}

/// The first open transaction of a frontier is found, if there is one.
proof fn lemma_unresolved(view: MakerView, key: u8, id: u64)
    ensures
        view.unresolved_frontier(key) == Some(id) <==> exists|i: int| #[trigger]
            is_first_open(view, key, i, id),
{
    if view.frontier.contains_key(key) {
        let queue = view.frontier[key];
        let n = lemma_first_open(view, queue);
        if view.unresolved_frontier(key) == Some(id) {
            assert(queue.skip(n)[0] == queue[n]);
            assert(is_first_open(view, key, n, id));
        }
        if exists|i: int| #[trigger] is_first_open(view, key, i, id) {
            let i = choose|i: int| #[trigger] is_first_open(view, key, i, id);
            if i < n {
                assert(!(view.known.contains_key(queue[i]) && has_partner(view, queue[i])));
            } else if n < i {
                assert(!(view.known.contains_key(view.frontier[key][n]) && has_partner(
                    view,
                    view.frontier[key][n],
                )));
            }
            assert(queue.skip(n)[0] == queue[n]);
        }
    }
}

/// The last writer of a state before the batch surely comes before what the batch writes to it.
pub open spec fn surely_before(view: MakerView, key: u8, id: u64) -> bool {
    view.last_writer.contains_key(key) && view.last_writer[key] == id && !is_unsettled(view, id)
}

/// The order of `id` and what the batch writes to a state is open: `id` is the last writer, and its
/// own order is open, or else it is the first open transaction of the frontier.
pub open spec fn maybe_before(view: MakerView, key: u8, id: u64) -> bool {
    if view.last_writer.contains_key(key) && is_unsettled(view, view.last_writer[key]) {
        id == view.last_writer[key]
    } else {
        !(view.last_writer.contains_key(key) && view.last_writer[key] == id) && exists|i: int|
            #[trigger] is_first_open(view, key, i, id)
    }
}

proof fn lemma_dependency_of(view: MakerView, key: u8, id: u64)
    ensures
        view.dependency(key).edge_predecessor == Some(id) <==> surely_before(view, key, id),
        view.dependency(key).missing_predecessor == Some(id) <==> maybe_before(view, key, id),
{
    lemma_unresolved(view, key, id);
    if view.last_writer.contains_key(key) {
        let last = view.last_writer[key];
        lemma_partner(view, last);
        lemma_unresolved(view, key, last);
    }
}

/// An edge of a sealed batch leads to a standard transaction of the batch, from an earlier one of
/// the batch that writes the same state, or from the last writer of that state before the batch;
/// the latter unless its own order is still open. All such edges are there.
pub proof fn lemma_sealed_edges(view: MakerView, batch: BatchView, e: (u64, u64))
    requires
        is_sealed_batch(view, batch),
    ensures
        batch.edges.contains(e) <==> e.0 != e.1 && exists|b: int, key: u8|
            #![trigger writes(batch.transactions, b, e.1, key)]
            writes(batch.transactions, b, e.1, key) && (surely_before(view, key, e.0) || exists|
                a: int,
            |
                a < b && #[trigger] writes(batch.transactions, a, e.0, key)),
{
    let txs = view.current;
    let list = standard_list(txs);
    assert(batch.edges.contains(e) <==> batch.edges.to_set().contains(e));
    if batch.edges.contains(e) {
        let j = choose|j: int|
            0 <= j < list.len() && e.1 == (#[trigger] list[j]).0 && view.follows(list, j, e.0);
        let b = lemma_place(txs, j);
        let key = list[j].1;
        lemma_dependency_of(view, key, e.0);
        assert(writes(batch.transactions, b, e.1, key));
        if writes_before(list, j, e.0) {
            let i = choose|i: int| 0 <= i < j && #[trigger] list[i] == (e.0, list[j].1);
            let a = lemma_place(txs, i);
            if b <= a {
                lemma_rank_grows(txs, b, a);
            }
            assert(writes(batch.transactions, a, e.0, key));
        }
    }
    if e.0 != e.1 && exists|b: int, key: u8|
        #![trigger writes(batch.transactions, b, e.1, key)]
        writes(batch.transactions, b, e.1, key) && (surely_before(view, key, e.0) || exists|a: int|
            a < b && #[trigger] writes(batch.transactions, a, e.0, key)) {
        let (b, key) = choose|b: int, key: u8|
            #![trigger writes(batch.transactions, b, e.1, key)]
            writes(batch.transactions, b, e.1, key) && (surely_before(view, key, e.0) || exists|
                a: int,
            |
                a < b && #[trigger] writes(batch.transactions, a, e.0, key));
        let j = rank(txs, b);
        lemma_rank_step(txs, b);
        lemma_dependency_of(view, key, e.0);
        if exists|a: int| a < b && #[trigger] writes(batch.transactions, a, e.0, key) {
            let a = choose|a: int| a < b && #[trigger] writes(batch.transactions, a, e.0, key);
            lemma_rank_step(txs, a);
            lemma_rank_grows(txs, a, b);
            assert(list[rank(txs, a)] == (e.0, list[j].1));
            assert(writes_before(list, j, e.0));
        }
        assert(list[j] == (e.1, key));
        assert(view.follows(list, j, e.0));
        assert(view.batch_edges(list).contains(e));
    }
}

/// A missing pair of a sealed batch leads to a standard transaction of the batch, from the one
/// earlier transaction whose order with what writes its state is open. All such pairs are there.
pub proof fn lemma_sealed_missing(view: MakerView, batch: BatchView, e: (u64, u64))
    requires
        is_sealed_batch(view, batch),
    ensures
        batch.missing_edges.contains(e) <==> e.0 != e.1 && exists|b: int, key: u8|
            #![trigger writes(batch.transactions, b, e.1, key)]
            writes(batch.transactions, b, e.1, key) && maybe_before(view, key, e.0),
        batch.author == view.name,
        batch.sequence == view.next_sequence,
        batch.transactions == view.current,
{
    let txs = view.current;
    let list = standard_list(txs);
    assert(batch.missing_edges.contains(e) <==> batch.missing_edges.to_set().contains(e));
    if batch.missing_edges.contains(e) {
        let j = choose|j: int|
            0 <= j < list.len() && e.1 == (#[trigger] list[j]).0 && e.0 != e.1 && view.dependency(
                list[j].1,
            ).missing_predecessor == Some(e.0);
        let b = lemma_place(txs, j);
        lemma_dependency_of(view, list[j].1, e.0);
        assert(writes(batch.transactions, b, e.1, list[j].1));
    }
    if e.0 != e.1 && exists|b: int, key: u8|
        #![trigger writes(batch.transactions, b, e.1, key)]
        writes(batch.transactions, b, e.1, key) && maybe_before(view, key, e.0) {
        let (b, key) = choose|b: int, key: u8|
            #![trigger writes(batch.transactions, b, e.1, key)]
            writes(batch.transactions, b, e.1, key) && maybe_before(view, key, e.0);
        let j = rank(txs, b);
        lemma_rank_step(txs, b);
        lemma_dependency_of(view, key, e.0);
        assert(list[j] == (e.1, key));
        assert(view.batch_missing(list).contains(e));
    }
}

proof fn lemma_record_all_known(view: MakerView, list: Seq<(u64, u8)>, id: u64)
    requires
        forall|i: int, j: int|
            0 <= i < j < list.len() ==> (#[trigger] list[i]).0 != (#[trigger] list[j]).0,
    ensures
        forall|i: int|
            0 <= i < list.len() && (#[trigger] list[i]).0 == id ==> view.record_all(
                list,
            ).known.contains_key(id) && view.record_all(list).known[id] == list[i].1,
        (forall|i: int| 0 <= i < list.len() ==> (#[trigger] list[i]).0 != id) ==> (view.record_all(
            list,
        ).known.contains_key(id) <==> view.known.contains_key(id)) && view.record_all(
            list,
        ).known[id] == view.known[id],
    decreases list.len(),
{
    if list.len() > 0 {
        let fewer = list.drop_last();
        let last = list.len() - 1;
        assert forall|i: int, j: int| 0 <= i < j < fewer.len() implies (#[trigger] fewer[i]).0 != (
        #[trigger] fewer[j]).0 by {
            assert(list[i].0 != list[j].0);
        }
        lemma_record_all_known(view, fewer, id);
        assert forall|i: int|
            0 <= i < list.len() && (#[trigger] list[i]).0 == id implies view.record_all(
            list,
        ).known.contains_key(id) && view.record_all(list).known[id] == list[i].1 by {
            if i < last {
                assert(list[i].0 != list[last].0);
                assert(fewer[i] == list[i]);
            }
        }
        if forall|i: int| 0 <= i < list.len() ==> (#[trigger] list[i]).0 != id {
            assert(list[last].0 != id);
            assert forall|i: int| 0 <= i < fewer.len() implies (#[trigger] fewer[i]).0 != id by {
                assert(fewer[i] == list[i]);
            }
        }
    }
}

/// After sealing, each standard transaction of the batch is known with the state that it writes;
/// of other transactions the same is known as before.
pub proof fn lemma_sealed_transactions_are_known(view: MakerView, id: u64)
    requires
        view.valid(),
    ensures
        forall|a: int, key: u8|
            #[trigger] writes(view.current, a, id, key) ==> view.seal().known.contains_key(id)
                && view.seal().known[id] == key && !view.known.contains_key(id),
        (forall|a: int, key: u8| !#[trigger] writes(view.current, a, id, key)) ==> (
        view.seal().known.contains_key(id) <==> view.known.contains_key(id))
            && view.seal().known[id] == view.known[id],
{
    let txs = view.current;
    let list = standard_list(txs);
    lemma_seal_keeps(view);
    lemma_prune_frontiers(view, list, 0);
    lemma_standard_list(txs);
    lemma_record_all_known(cleared(view), list, id);
    assert forall|a: int, key: u8| #[trigger] writes(txs, a, id, key) implies view.seal().known.contains_key(
        id,
    ) && view.seal().known[id] == key && !view.known.contains_key(id) by {
        lemma_rank_step(txs, a);
        assert(list[rank(txs, a)] == (id, key));
        assert(standard_id(txs[a]) == Some(id));
        assert(view.staged.contains(id));
        assert(!view.known.dom().contains(id));
    }
    if forall|a: int, key: u8| !#[trigger] writes(txs, a, id, key) {
        assert forall|i: int| 0 <= i < list.len() implies (#[trigger] list[i]).0 != id by {
            let a = lemma_place(txs, i);
            assert(writes(txs, a, list[i].0, list[i].1));
        }
    }
}

proof fn lemma_record_all_queues(view: MakerView, list: Seq<(u64, u8)>, key: u8)
    requires
        forall|i: int| 0 <= i < list.len() ==> !view.known.contains_key((#[trigger] list[i]).0),
        forall|i: int, j: int|
            0 <= i < j < list.len() ==> (#[trigger] list[i]).0 != (#[trigger] list[j]).0,
    ensures
        queue_of(view.record_all(list).unprocessed, key) == queue_of(view.unprocessed, key)
            + list.filter(|entry: (u64, u8)| entry.1 == key).map_values(
            |entry: (u64, u8)| entry.0,
        ),
    decreases list.len(),
{
    let pick = |entry: (u64, u8)| entry.1 == key;
    let name = |entry: (u64, u8)| entry.0;
    reveal(Seq::filter);
    if list.len() > 0 {
        let fewer = list.drop_last();
        let last = list.last();
        assert forall|i: int| 0 <= i < fewer.len() implies !view.known.contains_key(
            (#[trigger] fewer[i]).0,
        ) by {
            assert(fewer[i] == list[i]);
        }
        assert forall|i: int, j: int| 0 <= i < j < fewer.len() implies (#[trigger] fewer[i]).0 != (
        #[trigger] fewer[j]).0 by {
            assert(list[i].0 != list[j].0);
        }
        lemma_record_all_queues(view, fewer, key);
        lemma_record_all_known(view, fewer, last.0);
        let before = view.record_all(fewer);
        assert(!before.known.contains_key(last.0)) by {
            assert forall|i: int| 0 <= i < fewer.len() implies (#[trigger] fewer[i]).0 != last.0 by {
                assert(list[i].0 != list[list.len() - 1].0);
            }
            assert(!view.known.contains_key(list[list.len() - 1].0));
        }
        if last.1 == key {
            assert(list.filter(pick) =~= fewer.filter(pick).push(last));
        } else {
            assert(list.filter(pick) =~= fewer.filter(pick));
        }
        assert(queue_of(view.record_all(list).unprocessed, key) =~= queue_of(view.unprocessed, key)
            + list.filter(pick).map_values(name));
    } else {
        assert(list.filter(pick).map_values(name) =~= Seq::empty());
        assert(queue_of(view.unprocessed, key) =~= queue_of(view.unprocessed, key) + list.filter(
            pick,
        ).map_values(name));
    }
}

/// After sealing, the queue of each state has what the batch writes to it at its end, in the order of
/// the batch.
pub proof fn lemma_sealed_transactions_are_queued(view: MakerView, key: u8)
    requires
        view.valid(),
    ensures
        queue_of(view.seal().unprocessed, key) == queue_of(view.unprocessed, key)
            + view.current.filter(
            |tx: Seq<u8>| standard_id_and_key(tx) is Some && (standard_id_and_key(tx)->0).1 == key,
        ).map_values(|tx: Seq<u8>| (standard_id_and_key(tx)->0).0),
{
    let txs = view.current;
    let list = standard_list(txs);
    lemma_seal_keeps(view);
    lemma_prune_frontiers(view, list, 0);
    lemma_standard_list(txs);
    assert forall|i: int| 0 <= i < list.len() implies !cleared(view).known.contains_key(
        (#[trigger] list[i]).0,
    ) by {
        assert(view.staged.contains(list[i].0));
        assert(!view.known.dom().contains(list[i].0));
    }
    lemma_record_all_queues(cleared(view), list, key);
    lemma_filters_agree(txs, key);
}

proof fn lemma_filters_agree(txs: Seq<Seq<u8>>, key: u8)
    ensures
        standard_list(txs).filter(|entry: (u64, u8)| entry.1 == key).map_values(
            |entry: (u64, u8)| entry.0,
        ) == txs.filter(
            |tx: Seq<u8>| standard_id_and_key(tx) is Some && (standard_id_and_key(tx)->0).1 == key,
        ).map_values(|tx: Seq<u8>| (standard_id_and_key(tx)->0).0),
    decreases txs.len(),
{
    let pick = |entry: (u64, u8)| entry.1 == key;
    let name = |entry: (u64, u8)| entry.0;
    let pick_tx = |tx: Seq<u8>|
        standard_id_and_key(tx) is Some && (standard_id_and_key(tx)->0).1 == key;
    let name_tx = |tx: Seq<u8>| (standard_id_and_key(tx)->0).0;
    reveal(Seq::filter);
    if txs.len() > 0 {
        let fewer = txs.drop_last();
        let list = standard_list(txs);
        let shorter = standard_list(fewer);
        lemma_filters_agree(fewer, key);
        if let Some(entry) = standard_id_and_key(txs.last()) {
            assert(list.drop_last() =~= shorter);
            assert(list.last() == entry);
            if entry.1 == key {
                assert(list.filter(pick) =~= shorter.filter(pick).push(entry));
                assert(txs.filter(pick_tx) =~= fewer.filter(pick_tx).push(txs.last()));
                assert(list.filter(pick).map_values(name) =~= shorter.filter(pick).map_values(
                    name,
                ).push(entry.0));
                assert(txs.filter(pick_tx).map_values(name_tx) =~= fewer.filter(
                    pick_tx,
                ).map_values(name_tx).push(entry.0));
            } else {
                assert(list.filter(pick) =~= shorter.filter(pick));
                assert(txs.filter(pick_tx) =~= fewer.filter(pick_tx));
            }
        } else {
            assert(txs.filter(pick_tx) =~= fewer.filter(pick_tx));
        }
        assert(list.filter(pick).map_values(name) =~= txs.filter(pick_tx).map_values(name_tx));
    } else {
        assert(standard_list(txs).filter(pick).map_values(name) =~= Seq::empty());
        assert(txs.filter(pick_tx).map_values(name_tx) =~= Seq::empty());
    }
}

/// A standard transaction is a duplicate exactly if one with its identifier is in the open batch, or
/// in a sealed one and not yet executed. Other transactions never are.
pub proof fn lemma_duplicates(view: MakerView, tx: Seq<u8>)
    requires
        view.valid(),
    ensures
        standard_id_and_key(tx) is None ==> !view.is_duplicate(tx),
        standard_id_and_key(tx) matches Some((id, _)) ==> (view.is_duplicate(tx) <==>
            view.known.contains_key(id) || exists|a: int, key: u8| #[trigger]
            writes(view.current, a, id, key)),
{
    if let Some((id, _)) = standard_id_and_key(tx) {
        if view.staged.contains(id) {
            let a = choose|a: int|
                0 <= a < view.current.len() && standard_id(#[trigger] view.current[a]) == Some(id);
            let key = (standard_id_and_key(view.current[a])->0).1;
            assert(writes(view.current, a, id, key));
        }
        if exists|a: int, key: u8| #[trigger] writes(view.current, a, id, key) {
            let (a, key) = choose|a: int, key: u8| #[trigger] writes(view.current, a, id, key);
            assert(standard_id(view.current[a]) == Some(id));
            assert(view.staged.contains(id));
        }
    }
}

/// A transaction that is staged goes to the end of the open batch, whose size is that of all its
/// transactions together; nothing else changes.
pub proof fn lemma_staged_at_the_end(view: MakerView, tx: Seq<u8>)
    requires
        view.valid(),
    ensures
        view.stage(tx).current == view.current.push(tx),
        view.stage(tx).size == view.size + tx.len(),
        view.stage(tx).known == view.known,
        view.stage(tx).last_writer == view.last_writer,
        view.stage(tx).processed == view.processed,
        view.stage(tx).next_sequence == view.next_sequence,
        forall|id: u64| #[trigger]
            view.stage(tx).staged.contains(id) <==> view.staged.contains(id) || standard_id(tx)
                == Some(id),
{
}

/// What is known of a transaction: that it was executed, else that it was sealed, else that it is in
/// the open batch.
pub proof fn lemma_states(view: MakerView, id: u64)
    ensures
        view.tx_state(id) == TxState::Processed <==> view.processed.contains(id),
        view.tx_state(id) == TxState::Unprocessed <==> view.known.contains_key(id)
            && !view.processed.contains(id),
        view.tx_state(id) == TxState::InBatch <==> view.staged.contains(id)
            && !view.known.contains_key(id) && !view.processed.contains(id),
        view.tx_state(id) == TxState::Unseen <==> !view.staged.contains(id)
            && !view.known.contains_key(id) && !view.processed.contains(id),
{
}

/// It is noted for `id` that its order with `y` is open.
pub open spec fn partner(view: MakerView, id: u64, y: u64) -> bool {
    view.partners.contains_key(id) && view.partners[id].contains(y)
}

/// Once a transaction is executed, it is remembered as executed and no longer known as sealed; no
/// order with it is open any more, and that of others is as it was. Where 65536 transactions are
/// remembered already, the oldest is forgotten.
pub proof fn lemma_executed_transaction_is_settled(view: MakerView, id: u64)
    requires
        view.valid(),
    ensures
        view.process_one(id).processed.contains(id),
        view.process_one(id).known == view.known.remove(id),
        !view.process_one(id).partners.contains_key(id),
        forall|y: u64| #[trigger]
            partner(view, id, y) ==> !view.process_one(id).pairs.contains(canonical_pair(id, y)),
        forall|p: (u64, u64)|
            p.0 != id && p.1 != id ==> (#[trigger] view.process_one(id).pairs.contains(p)
                <==> view.pairs.contains(p)),
        forall|y: u64, z: u64|
            y != id && z != id ==> (#[trigger] partner(view.process_one(id), y, z) <==> partner(
                view,
                y,
                z,
            )),
        forall|y: u64|
            y != id && partner(view, id, y) && view.pairs.contains(canonical_pair(id, y))
                ==> !#[trigger] partner(view.process_one(id), y, id),
        forall|other: u64|
            other != id && !(view.processed_fifo.len() == 65_536 && !view.processed.contains(id)
                && other == view.processed_fifo[0]) ==> (#[trigger] view.process_one(
                id,
            ).processed.contains(other) <==> view.processed.contains(other)),
        view.processed_fifo.len() == 65_536 && !view.processed.contains(id) ==> !view.process_one(
            id,
        ).processed.contains(view.processed_fifo[0]),
        view.process_one(id).last_writer == view.last_writer,
        view.process_one(id).current == view.current,
        view.process_one(id).staged == view.staged,
        view.process_one(id).frontier == view.frontier,
        view.process_one(id).frontier_ids == view.frontier_ids,
        view.process_one(id).unprocessed == view.unprocessed,
        view.process_one(id).pair_fifo == view.pair_fifo,
        view.process_one(id).next_sequence == view.next_sequence,
{
    let after = view.process_one(id);
    let others = partners_of(view.partners, id);
    if view.processed_fifo.len() > 0 {
        assert(view.processed_fifo.contains(view.processed_fifo[0]));
        assert(view.processed_fifo.to_set().contains(view.processed_fifo[0]));
    }
    assert(after.known =~= view.known.remove(id));
    assert forall|y: u64| #[trigger] partner(view, id, y) implies !after.pairs.contains(
        canonical_pair(id, y),
    ) by {
        assert(crate::maker_model::is_pair_with(id, others, y, canonical_pair(id, y)));
        assert(pairs_with(id, others).contains(canonical_pair(id, y)));
    }
    assert forall|p: (u64, u64)| p.0 != id && p.1 != id implies (#[trigger] after.pairs.contains(p)
        <==> view.pairs.contains(p)) by {
        if pairs_with(id, others).contains(p) {
            let y = choose|y: u64| crate::maker_model::is_pair_with(id, others, y, p);
        }
    }
    assert forall|y: u64, z: u64| y != id && z != id implies (#[trigger] partner(after, y, z)
        <==> partner(view, y, z)) by {
        if partner(view, y, z) && view.settles(id, y) {
            assert(view.partners[y].remove(id).contains(z));
        }
    }
}

/// What is executed last is remembered last: at the end of the list, whose oldest entry makes room
/// where that is needed.
pub proof fn lemma_memory_is_in_order(view: MakerView, id: u64)
    requires
        !view.processed.contains(id),
        view.processed_fifo.len() <= 65_536,
    ensures
        view.process_one(id).processed_fifo.last() == id,
        view.process_one(id).processed_fifo.len() > 0,
        view.processed_fifo.len() < 65_536 ==> view.process_one(id).processed_fifo.drop_last()
            == view.processed_fifo,
        view.processed_fifo.len() == 65_536 ==> view.process_one(id).processed_fifo.drop_last()
            == view.processed_fifo.drop_first(),
{
    let fifo = view.process_one(id).processed_fifo;
    if view.processed_fifo.len() < 65_536 {
        assert(fifo.drop_last() =~= view.processed_fifo);
    } else {
        assert(fifo.drop_last() =~= view.processed_fifo.drop_first());
    }
}

/// An executed transaction that is still queued for its state is counted there, and only there.
pub proof fn lemma_executed_are_counted(view: MakerView, id: u64, key: u8)
    requires
        view.valid(),
        queue_of(view.unprocessed, key).len() <= usize::MAX,
    ensures
        stale_of(view.process_one(id).stale, key) == stale_of(view.stale, key) + (
        if view.known.contains_key(id) && view.known[id] == key {
            1int
        } else {
            0
        }),
{
    if view.known.contains_key(id) && view.known[id] == key {
        crate::maker_model::lemma_count_fits(view, id);
    }
}

/// Those that are dropped from a queue are counted no longer.
pub proof fn lemma_dropped_are_not_counted(view: MakerView, keys: Set<u8>, key: u8)
    requires
        keys.contains(key),
        view.unprocessed.contains_key(key),
        view.stale.contains_key(key),
    ensures
        ({
            let after = view.tidy(keys);
            let dropped = queue_of(view.unprocessed, key).len() - queue_of(
                after.unprocessed,
                key,
            ).len();
            &&& queue_of(after.unprocessed, key).len() == 0 ==> stale_of(after.stale, key) == 0
            &&& queue_of(after.unprocessed, key).len() > 0 && dropped <= stale_of(view.stale, key)
                ==> stale_of(after.stale, key) == stale_of(view.stale, key) - dropped
            &&& queue_of(after.unprocessed, key).len() > 0 && dropped > stale_of(view.stale, key)
                ==> stale_of(after.stale, key) == 0
        }),
{
    let queue = queue_of(view.unprocessed, key);
    let n = lemma_drop_processed_suffix(view, queue);
    assert(view.tidy_queue(key) == queue.skip(n));
    assert(queue_of(view.tidy(keys).unprocessed, key) =~= queue.skip(n));
    assert(0 <= view.tidy_count(key) <= view.stale[key]);
}

/// A message that is handled at once has the effect that it has when it is queued and then worked
/// off, where nothing else waits.
pub proof fn lemma_queued_or_at_once(view: MakerView, control: ControlView)
    requires
        view.pending_processed.len() == 0,
        view.pending_observations.len() == 0,
    ensures
        control matches ControlView::MarkProcessed(ids) ==> (ids.len() > 0 ==> view.handle(control)
            == view.enqueue(control).work_processed(ids.len())),
        control matches ControlView::ObserveGlobalGraph(info) ==> (info.missing_edges.len() > 0
            ==> view.handle(control) == view.enqueue(control).work_observed(
            info.missing_edges.len(),
        )),
{
    match control {
        ControlView::MarkProcessed(ids) => {
            let queued = view.enqueue(control);
            if ids.len() > 0 {
                assert(queued.pending_processed.drop_first() =~= view.pending_processed);
                assert(ids.take(ids.len() as int) =~= ids);
            }
        },
        ControlView::ObserveGlobalGraph(info) => {
            crate::maker_model::lemma_prune_pairs_pending(view, info.sequence);
            let pruned = view.prune_pairs(info.sequence);
            let queued = view.enqueue(control);
            let pairs = info.missing_edges;
            if pairs.len() > 0 {
                assert(queued.pending_observations.drop_first() =~= pruned.pending_observations);
                assert(queued.pending_observations[0] == (info.sequence, pairs));
                assert(pairs.take(pairs.len() as int) =~= pairs);
            }
        },
    }
}

/// The observed pairs that wait, in their order.
pub open spec fn waiting_pairs(observations: Seq<(u64, Seq<(u64, u64)>)>) -> Seq<(u64, u64)>
    decreases observations.len(),
{
    if observations.len() == 0 {
        Seq::empty()
    } else {
        observations[0].1 + waiting_pairs(observations.drop_first())
    }
}

/// Observed pairs are handled from the front, each with the round of its own observation, as far as
/// the budget goes; the rest keeps its place.
pub proof fn lemma_observed_are_handled_in_order(view: MakerView, budget: nat)
    requires
        view.pending_observations.len() > 0,
    ensures
        ({
            let (sequence, front) = view.pending_observations[0];
            let n = if budget <= front.len() {
                budget as int
            } else {
                front.len() as int
            };
            let after = view.work_observed(budget);
            let popped = MakerView {
                pending_observations: view.pending_observations.drop_first(),
                ..view
            };
            &&& waiting_pairs(after.pending_observations) == waiting_pairs(
                view.pending_observations,
            ).skip(n)
            &&& after.pending_processed == view.pending_processed
            &&& n < front.len() ==> after.pending_observations[0].0 == sequence
            &&& after.pairs == popped.observe_pairs(
                sequence,
                waiting_pairs(view.pending_observations).take(n),
            ).pairs
        }),
{
    let (sequence, front) = view.pending_observations[0];
    let rest = view.pending_observations.drop_first();
    let n = least(budget, front.len()) as int;
    let after = view.work_observed(budget);
    let popped = MakerView { pending_observations: rest, ..view };
    let all = waiting_pairs(view.pending_observations);
    lemma_observe_keeps_pending(popped, sequence, front.take(n));
    assert(all =~= front + waiting_pairs(rest));
    assert(all.take(n) =~= front.take(n));
    if n < front.len() {
        let left = seq![(sequence, front.skip(n))] + rest;
        assert(left.drop_first() =~= rest);
        assert(left[0] == (sequence, front.skip(n)));
        assert(after.pending_observations =~= left);
        assert(waiting_pairs(left) =~= front.skip(n) + waiting_pairs(rest));
    }
    assert(waiting_pairs(after.pending_observations) =~= all.skip(n));
}

proof fn lemma_observe_keeps_pending(view: MakerView, sequence: u64, pairs: Seq<(u64, u64)>)
    ensures
        view.observe_pairs(sequence, pairs).pending_processed == view.pending_processed,
        view.observe_pairs(sequence, pairs).pending_observations == view.pending_observations,
    decreases pairs.len(),
{
    if pairs.len() > 0 {
        let before = view.observe_pairs(sequence, pairs.drop_last());
        let pair = pairs.last();
        lemma_observe_keeps_pending(view, sequence, pairs.drop_last());
        let noted = MakerView {
            pairs: before.pairs.insert(pair),
            pair_fifo: before.pair_fifo.push((sequence, pair)),
            ..before
        };
        crate::maker_model::lemma_prune_pairs_pending(
            noted.record_partner(pair.0, pair.1).record_partner(pair.1, pair.0),
            sequence,
        );
    }
}

/// Executing some transactions is executing the first ones and then the others.
pub proof fn lemma_executed_one_after_the_other(view: MakerView, ids: Seq<u64>, more: Seq<u64>)
    ensures
        view.process_each(ids + more) == view.process_each(ids).process_each(more),
        more.len() == 1 ==> view.process_each(more) == view.process_one(more[0]),
    decreases more.len(),
{
    reveal_with_fuel(MakerView::process_each, 2);
    if more.len() == 0 {
        assert(ids + more =~= ids);
    } else {
        lemma_executed_one_after_the_other(view, ids, more.drop_last());
        assert((ids + more).drop_last() =~= ids + more.drop_last());
    }
}

/// Observing some pairs is observing the first ones and then the others.
pub proof fn lemma_observed_one_after_the_other(
    view: MakerView,
    sequence: u64,
    pairs: Seq<(u64, u64)>,
    more: Seq<(u64, u64)>,
)
    ensures
        view.observe_pairs(sequence, pairs + more) == view.observe_pairs(
            sequence,
            pairs,
        ).observe_pairs(sequence, more),
        more.len() == 1 ==> view.observe_pairs(sequence, more) == view.observe_pair(
            sequence,
            more[0],
        ),
    decreases more.len(),
{
    reveal_with_fuel(MakerView::observe_pairs, 2);
    if more.len() == 0 {
        assert(pairs + more =~= pairs);
    } else {
        lemma_observed_one_after_the_other(view, sequence, pairs, more.drop_last());
        assert((pairs + more).drop_last() =~= pairs + more.drop_last());
    }
}

/// What is left of a queue once the executed transactions at its head are dropped.
proof fn lemma_drop_processed_suffix(view: MakerView, queue: Seq<u64>) -> (n: int)
    ensures
        0 <= n <= queue.len(),
        view.drop_processed(queue) == queue.skip(n),
        forall|j: int| 0 <= j < n ==> !view.known.contains_key(#[trigger] queue[j]),
        n < queue.len() ==> view.known.contains_key(queue[n]),
    decreases queue.len(),
{
    if queue.len() > 0 && !view.known.contains_key(queue[0]) {
        let rest = queue.drop_first();
        let n = lemma_drop_processed_suffix(view, rest);
        assert(rest.skip(n) =~= queue.skip(n + 1));
        assert forall|j: int| 0 <= j < n + 1 implies !view.known.contains_key(#[trigger] queue[j]) by {
            if j > 0 {
                assert(rest[j - 1] == queue[j]);
            }
        }
        n + 1
    } else {
        assert(queue.skip(0) =~= queue);
        0
    }
}

/// `left` is what is left of `queue` without its first `n` transactions. None of those is known, and
/// the first that is left is.
pub open spec fn is_tidied(view: MakerView, queue: Seq<u64>, left: Seq<u64>, n: int) -> bool {
    &&& 0 <= n <= queue.len()
    &&& left == queue.skip(n)
    &&& forall|j: int| 0 <= j < n ==> !view.known.contains_key(#[trigger] queue[j])
    &&& n < queue.len() ==> view.known.contains_key(queue[n])
}

/// After transactions were executed, the queue of each state that one of them was known to write
/// starts with a transaction that was not executed, and only executed ones were dropped. All other
/// queues are as they were.
pub proof fn lemma_queues_are_tidied(view: MakerView, ids: Seq<u64>, key: u8)
    ensures
        (exists|i: int|
            0 <= i < ids.len() && view.known.contains_key(#[trigger] ids[i]) && view.known[ids[i]]
                == key) ==> exists|n: int| #[trigger]
            is_tidied(
                view.process(ids),
                queue_of(view.unprocessed, key),
                queue_of(view.process(ids).unprocessed, key),
                n,
            ),
        !(exists|i: int|
            0 <= i < ids.len() && view.known.contains_key(#[trigger] ids[i]) && view.known[ids[i]]
                == key) ==> queue_of(view.process(ids).unprocessed, key) == queue_of(
            view.unprocessed,
            key,
        ),
{
    let worked = view.process_each(ids);
    lemma_process_each_queues(view, ids);
    let queue = queue_of(view.unprocessed, key);
    let n = lemma_drop_processed_suffix(worked, queue);
    if view.touched_keys(ids).contains(key) {
        assert(queue_of(view.process(ids).unprocessed, key) =~= queue.skip(n));
        assert(is_tidied(
            view.process(ids),
            queue,
            queue_of(view.process(ids).unprocessed, key),
            n,
        ));
    }
}

proof fn lemma_process_each_queues(view: MakerView, ids: Seq<u64>)
    ensures
        view.process_each(ids).unprocessed == view.unprocessed,
    decreases ids.len(),
{
    if ids.len() > 0 {
        lemma_process_each_queues(view, ids.drop_last());
    }
}

/// After transactions were executed, none of them is known as sealed, and all others are as before.
pub proof fn lemma_executed_transactions_are_not_known(view: MakerView, ids: Seq<u64>, id: u64)
    ensures
        view.process(ids).known.contains_key(id) <==> view.known.contains_key(id) && !ids.contains(
            id,
        ),
        view.process(ids).known.contains_key(id) ==> view.process(ids).known[id] == view.known[id],
    decreases ids.len(),
{
    if ids.len() > 0 {
        let fewer = ids.drop_last();
        lemma_executed_transactions_are_not_known(view, fewer, id);
        crate::ordered::lemma_push_contains(fewer, ids.last());
        assert(ids =~= fewer.push(ids.last()));
        assert(fewer.push(ids.last()).contains(id) <==> fewer.contains(id) || id == ids.last());
    }
}

/// `p` is the pair of `x` and `y`, in one order or the other.
pub open spec fn joins(p: (u64, u64), x: u64, y: u64) -> bool {
    p == (x, y) || p == (y, x)
}

/// `after` is `before` without its `n` oldest pairs: they are open no longer, and their ends are no
/// longer noted for each other. Everything else about pairs is as it was.
pub open spec fn loses_oldest_pairs(before: MakerView, after: MakerView, n: int) -> bool {
    let fifo = before.pair_fifo;
    &&& 0 <= n <= fifo.len()
    &&& after.pair_fifo == fifo.skip(n)
    &&& forall|p: (u64, u64)| #[trigger]
        after.pairs.contains(p) <==> before.pairs.contains(p) && forall|i: int|
            0 <= i < n ==> (#[trigger] fifo[i]).1 != p
    &&& forall|x: u64, y: u64| #[trigger]
        partner(after, x, y) <==> partner(before, x, y) && forall|i: int|
            0 <= i < n ==> !(joins((#[trigger] fifo[i]).1, x, y) && before.pairs.contains(
                fifo[i].1,
            ))
}

proof fn lemma_remove_pair_partners(view: MakerView, p: (u64, u64), x: u64, y: u64)
    requires
        view.pairs.contains(p),
    ensures
        partner(view.remove_pair(p), x, y) <==> partner(view, x, y) && !joins(p, x, y),
        view.remove_pair(p).pairs == view.pairs.remove(p),
        view.remove_pair(p).pair_fifo == view.pair_fifo,
        view.remove_pair(p).known == view.known,
        view.remove_pair(p).processed == view.processed,
{
    let one = (MakerView { pairs: view.pairs.remove(p), ..view });
    let two = one.remove_partner(p.0, p.1);
    let three = two.remove_partner(p.1, p.0);
    lemma_remove_partner(one, p.0, p.1, x, y);
    lemma_remove_partner(two, p.1, p.0, x, y);
}

proof fn lemma_remove_partner(view: MakerView, id: u64, other: u64, x: u64, y: u64)
    ensures
        partner(view.remove_partner(id, other), x, y) <==> partner(view, x, y) && !(x == id && y
            == other),
        view.remove_partner(id, other).pairs == view.pairs,
        view.remove_partner(id, other).pair_fifo == view.pair_fifo,
{
    if view.partners.contains_key(id) {
        let left = view.partners[id].remove(other);
        if left == Set::<u64>::empty() && x == id {
            assert(!left.contains(y));
        }
    }
}

proof fn lemma_prunes(view: MakerView, current: u64) -> (n: int)
    requires
        view.pairs.finite(),
    ensures
        loses_oldest_pairs(view, view.prune_pairs(current), n),
        ({
            let after = view.prune_pairs(current);
            after.pair_fifo.len() == 0 || (after.pairs.len() <= 4_096 && current
                - after.pair_fifo[0].0 <= 128)
        }),
        view.pairs.len() <= 4_096 ==> forall|i: int|
            0 <= i < n ==> current - (#[trigger] view.pair_fifo[i]).0 > 128,
    decreases view.pair_fifo.len(),
{
    let fifo = view.pair_fifo;
    let after = view.prune_pairs(current);
    if view.is_overdue(current) {
        let p = fifo[0].1;
        let next = view.drop_oldest_pair();
        let popped = MakerView { pair_fifo: fifo.drop_first(), ..view };
        assert(next == popped.remove_pair(p));
        if view.pairs.contains(p) {
            lemma_remove_pair_partners(popped, p, 0, 0);
        }
        let m = lemma_prunes(next, current);
        let n = m + 1;
        assert(next.pair_fifo.skip(m) =~= fifo.skip(n));
        assert forall|q: (u64, u64)| #[trigger] after.pairs.contains(q) <==> view.pairs.contains(q)
            && forall|i: int| 0 <= i < n ==> (#[trigger] fifo[i]).1 != q by {
            assert(next.pairs.contains(q) <==> view.pairs.contains(q) && q != p);
            if after.pairs.contains(q) {
                assert forall|i: int| 0 <= i < n implies (#[trigger] fifo[i]).1 != q by {
                    if i > 0 {
                        assert(next.pair_fifo[i - 1] == fifo[i]);
                    }
                }
            }
            if view.pairs.contains(q) && forall|i: int|
                0 <= i < n ==> (#[trigger] fifo[i]).1 != q {
                assert(fifo[0].1 != q);
                assert forall|i: int| 0 <= i < m implies (#[trigger] next.pair_fifo[i]).1 != q by {
                    assert(next.pair_fifo[i] == fifo[i + 1]);
                }
            }
        }
        assert forall|x: u64, y: u64| #[trigger] partner(after, x, y) <==> partner(view, x, y)
            && forall|i: int|
            0 <= i < n ==> !(joins((#[trigger] fifo[i]).1, x, y) && view.pairs.contains(
                fifo[i].1,
            )) by {
            if view.pairs.contains(p) {
                lemma_remove_pair_partners(popped, p, x, y);
            }
            assert(partner(popped, x, y) <==> partner(view, x, y));
            assert(partner(next, x, y) <==> partner(view, x, y) && !(view.pairs.contains(p)
                && joins(p, x, y)));
            if partner(after, x, y) {
                assert forall|i: int| 0 <= i < n implies !(joins((#[trigger] fifo[i]).1, x, y)
                    && view.pairs.contains(fifo[i].1)) by {
                    if i > 0 {
                        assert(next.pair_fifo[i - 1] == fifo[i]);
                        assert(!(joins(next.pair_fifo[i - 1].1, x, y) && next.pairs.contains(
                            next.pair_fifo[i - 1].1,
                        )));
                    }
                }
            }
            if partner(view, x, y) && forall|i: int|
                0 <= i < n ==> !(joins((#[trigger] fifo[i]).1, x, y) && view.pairs.contains(
                    fifo[i].1,
                )) {
                assert(!(joins(fifo[0].1, x, y) && view.pairs.contains(fifo[0].1)));
                assert forall|i: int| 0 <= i < m implies !(joins(
                    (#[trigger] next.pair_fifo[i]).1,
                    x,
                    y,
                ) && next.pairs.contains(next.pair_fifo[i].1)) by {
                    assert(next.pair_fifo[i] == fifo[i + 1]);
                }
            }
        }
        if view.pairs.len() <= 4_096 {
            assert forall|i: int| 0 <= i < n implies current - (#[trigger] fifo[i]).0 > 128 by {
                if i > 0 {
                    assert(next.pair_fifo[i - 1] == fifo[i]);
                }
            }
        }
        n
    } else {
        assert(fifo.skip(0) =~= fifo);
        0
    }
}

/// In the round `current`, the oldest open pairs are given up as long as there are more than 4096, or
/// as long as they were observed more than 128 rounds ago; no other pair is, and none that is left
/// at the head has to go.
pub proof fn lemma_oldest_pairs_are_given_up(view: MakerView, current: u64)
    requires
        view.pairs.finite(),
    ensures
        exists|n: int| #[trigger]
            loses_oldest_pairs(view, view.prune_pairs(current), n) && (view.pairs.len() <= 4_096
                ==> forall|i: int|
                0 <= i < n ==> current - (#[trigger] view.pair_fifo[i]).0 > 128),
        view.prune_pairs(current).pair_fifo.len() == 0 || (view.prune_pairs(current).pairs.len()
            <= 4_096 && current - view.prune_pairs(current).pair_fifo[0].0 <= 128),
{
    let n = lemma_prunes(view, current);
    assert(loses_oldest_pairs(view, view.prune_pairs(current), n));
}

/// Word of a round brings the open pairs up to date with it: none that is left at the head is more
/// than 128 rounds older.
pub proof fn lemma_word_of_a_round_ages_pairs(view: MakerView, info: InfoView)
    requires
        view.pairs.finite(),
    ensures
        ({
            let after = view.enqueue(ControlView::ObserveGlobalGraph(info));
            &&& after.pair_fifo.len() == 0 || (after.pairs.len() <= 4_096 && info.sequence
                - after.pair_fifo[0].0 <= 128)
            &&& exists|n: int| #[trigger]
                loses_oldest_pairs(view, after, n) && (view.pairs.len() <= 4_096 ==> forall|i: int|
                    0 <= i < n ==> info.sequence - (#[trigger] view.pair_fifo[i]).0 > 128)
        }),
{
    let after = view.enqueue(ControlView::ObserveGlobalGraph(info));
    let n = lemma_prunes(view, info.sequence);
    let pruned = view.prune_pairs(info.sequence);
    assert forall|x: u64, y: u64| partner(after, x, y) <==> partner(pruned, x, y) by {}
    assert(loses_oldest_pairs(view, pruned, n));
    assert(loses_oldest_pairs(view, after, n));
}

/// A sealed transaction is queued once, at the end of the queue of its state, however often it is
/// recorded.
pub proof fn lemma_recorded_once(view: MakerView, id: u64, key: u8)
    ensures
        view.record(id, key).known == view.known.insert(id, key),
        !view.known.contains_key(id) ==> queue_of(view.record(id, key).unprocessed, key)
            == queue_of(view.unprocessed, key).push(id),
        view.known.contains_key(id) ==> view.record(id, key).unprocessed == view.unprocessed,
        view.record(id, key).record(id, key) == view.record(id, key),
        forall|other: u8|
            other != key ==> #[trigger] queue_of(view.record(id, key).unprocessed, other)
                == queue_of(view.unprocessed, other),
{
    let once = view.record(id, key);
    assert(once.record(id, key).known =~= once.known);
}

/// A pair is taken in: it joins two different transactions, it is not open already, none of the two
/// was executed, and one of them was sealed.
pub open spec fn is_taken_in(view: MakerView, pair: (u64, u64)) -> bool {
    &&& pair.0 != pair.1
    &&& !view.pairs.contains(pair)
    &&& !view.processed.contains(pair.0)
    &&& !view.processed.contains(pair.1)
    &&& view.known.contains_key(pair.0) || view.known.contains_key(pair.1)
}

proof fn lemma_record_partner(view: MakerView, id: u64, other: u64, x: u64, y: u64)
    ensures
        ({
            let after = view.record_partner(id, other);
            &&& partner(after, x, y) <==> partner(view, x, y) || (x == id && y == other
                && view.known.contains_key(id) && !view.processed.contains(id))
            &&& after.pairs == view.pairs
            &&& after.pair_fifo == view.pair_fifo
            &&& after.known == view.known
            &&& after.processed == view.processed
        }),
{
}

/// An observed pair that is taken in is open from then on, dated with its round, and noted for each
/// of its ends that was sealed; as long as there is room for it, nothing is given up for it. Any
/// other pair changes nothing.
pub proof fn lemma_observed_pair_is_open(view: MakerView, sequence: u64, pair: (u64, u64))
    requires
        view.pairs.finite(),
        view.pairs.len() < 4_096,
        view.pair_fifo.len() > 0 ==> sequence - view.pair_fifo[0].0 <= 128,
    ensures
        !is_taken_in(view, pair) ==> view.observe_pair(sequence, pair) == view,
        is_taken_in(view, pair) ==> {
            let after = view.observe_pair(sequence, pair);
            &&& after.pairs == view.pairs.insert(pair)
            &&& after.pair_fifo == view.pair_fifo.push((sequence, pair))
            &&& forall|x: u64, y: u64| #[trigger]
                partner(after, x, y) <==> partner(view, x, y) || (joins(pair, x, y)
                    && view.known.contains_key(x))
            &&& after.known == view.known
            &&& after.processed == view.processed
        },
{
    if is_taken_in(view, pair) {
        let noted = MakerView {
            pairs: view.pairs.insert(pair),
            pair_fifo: view.pair_fifo.push((sequence, pair)),
            ..view
        };
        let one = noted.record_partner(pair.0, pair.1);
        let two = one.record_partner(pair.1, pair.0);
        let after = view.observe_pair(sequence, pair);
        lemma_record_partner(noted, pair.0, pair.1, 0, 0);
        lemma_record_partner(one, pair.1, pair.0, 0, 0);
        assert(!two.is_overdue(sequence));
        assert(after == two);
        assert forall|x: u64, y: u64| #[trigger] partner(after, x, y) <==> partner(view, x, y) || (
        joins(pair, x, y) && view.known.contains_key(x)) by {
            lemma_record_partner(noted, pair.0, pair.1, x, y);
            lemma_record_partner(one, pair.1, pair.0, x, y);
            assert(partner(noted, x, y) <==> partner(view, x, y));
        }
    }
}

/// `noted` is `view` with one pair more: open, dated, and noted for each of its ends that was sealed.
pub open spec fn has_one_pair_more(
    view: MakerView,
    noted: MakerView,
    sequence: u64,
    pair: (u64, u64),
) -> bool {
    &&& noted.pairs == view.pairs.insert(pair)
    &&& noted.pair_fifo == view.pair_fifo.push((sequence, pair))
    &&& forall|x: u64, y: u64| #[trigger]
        partner(noted, x, y) <==> partner(view, x, y) || (joins(pair, x, y)
            && view.known.contains_key(x))
}

/// Where there is no room for an observed pair that is taken in, it is taken in all the same, and the
/// oldest pairs are given up until there is; those that have grown too old go too.
pub proof fn lemma_oldest_pairs_make_room(view: MakerView, sequence: u64, pair: (u64, u64))
    requires
        view.valid(),
        is_taken_in(view, pair),
    ensures
        ({
            let after = view.observe_pair(sequence, pair);
            &&& exists|noted: MakerView, n: int| #[trigger]
                loses_oldest_pairs(noted, after, n) && has_one_pair_more(
                    view,
                    noted,
                    sequence,
                    pair,
                ) && (noted.pairs.len() <= 4_096 ==> forall|i: int|
                    0 <= i < n ==> sequence - (#[trigger] noted.pair_fifo[i]).0 > 128)
            &&& after.pair_fifo.len() == 0 || (after.pairs.len() <= 4_096 && sequence
                - after.pair_fifo[0].0 <= 128)
            &&& after.known == view.known
            &&& after.processed == view.processed
            &&& after.unprocessed == view.unprocessed
            &&& after.last_writer == view.last_writer
            &&& after.current == view.current
        }),
{
    let noted = MakerView {
        pairs: view.pairs.insert(pair),
        pair_fifo: view.pair_fifo.push((sequence, pair)),
        ..view
    };
    let one = noted.record_partner(pair.0, pair.1);
    let two = one.record_partner(pair.1, pair.0);
    let after = view.observe_pair(sequence, pair);
    lemma_record_partner(noted, pair.0, pair.1, 0, 0);
    lemma_record_partner(one, pair.1, pair.0, 0, 0);
    assert(after == two.prune_pairs(sequence));
    let n = lemma_prunes(two, sequence);
    assert forall|p: (u64, u64)| #[trigger] two.pairs.contains(p) implies exists|i: int|
        0 <= i < two.pair_fifo.len() && (#[trigger] two.pair_fifo[i]).1 == p by {
        if p == pair {
            assert(two.pair_fifo[view.pair_fifo.len() as int].1 == pair);
        } else {
            let i = choose|i: int|
                0 <= i < view.pair_fifo.len() && (#[trigger] view.pair_fifo[i]).1 == p;
            assert(two.pair_fifo[i] == view.pair_fifo[i]);
        }
    }
    crate::maker_model::lemma_prune_pairs(two, sequence);
    assert forall|x: u64, y: u64| #[trigger] partner(two, x, y) <==> partner(view, x, y) || (joins(
        pair,
        x,
        y,
    ) && view.known.contains_key(x)) by {
        lemma_record_partner(noted, pair.0, pair.1, x, y);
        lemma_record_partner(one, pair.1, pair.0, x, y);
        assert(partner(noted, x, y) <==> partner(view, x, y));
    }
    assert(has_one_pair_more(view, two, sequence, pair));
    assert(loses_oldest_pairs(two, after, n));
}

/// A transaction that gets its first partner joins the frontier of its state, at the end; one that is
/// there already does not join again.
pub proof fn lemma_frontier_grows_at_the_end(view: MakerView, id: u64, other: u64)
    requires
        view.known.contains_key(id),
        !view.processed.contains(id),
    ensures
        ({
            let after = view.record_partner(id, other);
            let key = view.known[id];
            &&& !partner(view, id, other) && !view.frontier_ids.contains(id) ==> queue_of(
                after.frontier,
                key,
            ) == queue_of(view.frontier, key).push(id) && after.frontier_ids.contains(id)
            &&& partner(view, id, other) || view.frontier_ids.contains(id) ==> after.frontier
                == view.frontier && after.frontier_ids == view.frontier_ids
            &&& forall|k: u8| k != key ==> #[trigger] queue_of(after.frontier, k) == queue_of(
                view.frontier,
                k,
            )
        }),
{
}

/// From the head of a frontier the transactions are dropped that are no longer sealed or in no open
/// pair, up to the first that is both.
pub proof fn lemma_frontier_is_pruned_at_its_head(view: MakerView, key: u8) -> (n: int)
    requires
        view.frontier.contains_key(key),
    ensures
        0 <= n <= view.frontier[key].len(),
        queue_of(view.prune_frontier(key).frontier, key) == view.frontier[key].skip(n),
        forall|j: int|
            0 <= j < n ==> !(view.known.contains_key(#[trigger] view.frontier[key][j])
                && has_partner(view, view.frontier[key][j])),
        n < view.frontier[key].len() ==> view.known.contains_key(view.frontier[key][n])
            && has_partner(view, view.frontier[key][n]),
        forall|id: u64| #[trigger]
            view.prune_frontier(key).frontier_ids.contains(id) <==> view.frontier_ids.contains(id)
                && !view.frontier[key].take(n).contains(id),
{
    let queue = view.frontier[key];
    let n = lemma_first_open(view, queue);
    let left = view.drop_dead(queue);
    assert(queue.len() - left.len() == n);
    assert(queue_of(view.prune_frontier(key).frontier, key) =~= queue.skip(n));
    n
}

proof fn lemma_process_keeps_pending(view: MakerView, ids: Seq<u64>)
    ensures
        view.process(ids).pending_processed == view.pending_processed,
        view.process(ids).pending_observations == view.pending_observations,
    decreases ids.len(),
{
    if ids.len() > 0 {
        lemma_process_keeps_pending(view, ids.drop_last());
    }
}

/// What waits to be handled as executed is handled from the front, as far as the budget goes, and the
/// rest keeps its place. What is handled is no longer known as sealed.
pub proof fn lemma_executed_are_handled_in_order(view: MakerView, budget: nat)
    requires
        view.pending_processed.len() > 0,
    ensures
        ({
            let n = if budget <= view.pending_processed[0].len() {
                budget as int
            } else {
                view.pending_processed[0].len() as int
            };
            let after = view.work_processed(budget);
            &&& after.pending_processed.flatten() == view.pending_processed.flatten().skip(n)
            &&& after.pending_observations == view.pending_observations
            &&& forall|i: int|
                0 <= i < n ==> !after.known.contains_key(
                    #[trigger] view.pending_processed.flatten()[i],
                )
            &&& forall|id: u64| #[trigger]
                after.known.contains_key(id) <==> view.known.contains_key(id)
                    && !view.pending_processed.flatten().take(n).contains(id)
        }),
{
    let front = view.pending_processed[0];
    let rest = view.pending_processed.drop_first();
    let n = least(budget, front.len()) as int;
    let after = view.work_processed(budget);
    let popped = MakerView { pending_processed: rest, ..view };
    lemma_process_keeps_pending(popped, front.take(n));
    let all = view.pending_processed.flatten();
    assert(all =~= front + rest.flatten());
    if n < front.len() {
        let left = seq![front.skip(n)] + rest;
        assert(left.drop_first() =~= rest);
        assert(left.flatten() =~= front.skip(n) + rest.flatten());
        assert(after.pending_processed =~= left);
    }
    assert(after.pending_processed.flatten() =~= all.skip(n));
    assert(all.take(n) =~= front.take(n));
    assert forall|id: u64| #[trigger] after.known.contains_key(id) <==> view.known.contains_key(id)
        && !all.take(n).contains(id) by {
        lemma_executed_transactions_are_not_known(popped, front.take(n), id);
    }
    assert forall|i: int| 0 <= i < n implies !after.known.contains_key(#[trigger] all[i]) by {
        assert(all.take(n)[i] == all[i]);
        assert(all.take(n).contains(all[i]));
    }
}

/// A control message goes to the end of what waits.
pub proof fn lemma_messages_wait_in_order(view: MakerView, control: ControlView)
    ensures
        control matches ControlView::MarkProcessed(ids) ==> view.enqueue(
            control,
        ).pending_processed.flatten() == view.pending_processed.flatten() + ids && view.enqueue(
            control,
        ).pending_observations == view.pending_observations && view.enqueue(control).known
            == view.known,
        control matches ControlView::ObserveGlobalGraph(info) ==> view.enqueue(
            control,
        ).pending_processed == view.pending_processed && view.enqueue(control).pending_observations
            == if info.missing_edges.len() > 0 {
            view.pending_observations.push((info.sequence, info.missing_edges))
        } else {
            view.pending_observations
        },
{
    match control {
        ControlView::MarkProcessed(ids) => {
            lemma_flatten_push(view.pending_processed, ids);
            if ids.len() == 0 {
                assert(view.pending_processed.flatten() + ids =~= view.pending_processed.flatten());
            }
        },
        ControlView::ObserveGlobalGraph(info) => {
            crate::maker_model::lemma_prune_pairs_pending(view, info.sequence);
        },
    }
}

proof fn lemma_flatten_push(lists: Seq<Seq<u64>>, list: Seq<u64>)
    ensures
        lists.push(list).flatten() == lists.flatten() + list,
    decreases lists.len(),
{
    if lists.len() == 0 {
        assert(lists.push(list).drop_first() =~= Seq::empty());
        reveal_with_fuel(Seq::flatten, 2);
        assert(lists.push(list).flatten() =~= lists.flatten() + list);
    } else {
        lemma_flatten_push(lists.drop_first(), list);
        assert(lists.push(list).drop_first() =~= lists.drop_first().push(list));
        assert(lists.push(list).flatten() =~= lists.flatten() + list);
    }
}

/// Executed transactions are handled before observed pairs, within the budget. Observed pairs are
/// handled only where nothing waits to be handled as executed.
pub proof fn lemma_executed_go_first(
    view: MakerView,
    budget: nat,
    arrivals: (Arrival, Arrival, Arrival),
)
    ensures
        view.drain_step(budget, arrivals).1 <= budget,
        view.pending_processed.len() > 0 ==> view.drain_step(budget, arrivals).0
            == view.work_processed(budget) && view.drain_step(budget, arrivals).1 == (if budget
            <= view.pending_processed[0].len() {
            budget
        } else {
            view.pending_processed[0].len()
        }),
        view.pending_processed.len() == 0 && view.pending_observations.len() > 0 && arrivals.1 is Nothing
            ==> view.drain_step(budget, arrivals).0 == view.receive(Arrival::Nothing).work_observed(
            budget,
        ) && view.drain_step(budget, arrivals).1 == (if budget
            <= view.pending_observations[0].1.len() {
            budget
        } else {
            view.pending_observations[0].1.len()
        }),
{
}

/// Work within a budget takes no more of it than there is, and stops early only where nothing waits
/// and nothing came in.
pub proof fn lemma_work_stops_when_there_is_none(
    view: MakerView,
    budget: nat,
    arrivals: Seq<(Arrival, Arrival, Arrival)>,
    end: MakerView,
)
    requires
        view.drains_to(budget, arrivals, end),
        view.valid_pending(),
        budget > 0,
        view.pending_processed.len() > 0 || view.pending_observations.len() > 0,
    ensures
        arrivals.len() > 0,
        view.drain_step(budget, arrivals[0]).1 > 0,
{
    let first = arrivals[0];
    if view.pending_processed.len() > 0 {
        assert(view.pending_processed[0].len() > 0);
    } else {
        let next = view.receive(first.1);
        lemma_receive_pending(view, first.1);
        if next.pending_processed.len() > 0 {
            assert(next.pending_processed[0].len() > 0);
        } else {
            assert(next.pending_observations[0].1.len() > 0);
        }
    }
}

proof fn lemma_receive_pending(view: MakerView, arrival: Arrival)
    requires
        view.valid_pending(),
    ensures
        view.receive(arrival).valid_pending(),
        view.receive(arrival).pending_observations.len() >= view.pending_observations.len(),
        view.receive(arrival).pending_processed.len() >= view.pending_processed.len(),
{
    match arrival {
        Arrival::Processed(ControlView::ObserveGlobalGraph(info)) => {
            let noted = MakerView {
                taken_processed: view.taken_processed.push(
                    Some(ControlView::ObserveGlobalGraph(info)),
                ),
                ..view
            };
            crate::maker_model::lemma_prune_pairs_pending(noted, info.sequence);
        },
        Arrival::Observed(ControlView::ObserveGlobalGraph(info)) => {
            let noted = MakerView {
                taken_processed: view.taken_processed.push(None),
                taken_observed: view.taken_observed.push(
                    Some(ControlView::ObserveGlobalGraph(info)),
                ),
                ..view
            };
            crate::maker_model::lemma_prune_pairs_pending(noted, info.sequence);
        },
        _ => {},
    }
}

} // verus!
