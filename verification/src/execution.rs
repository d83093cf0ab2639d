//! The order in which the transactions of a batch are executed, and what has to be
//! executed before.

use std::collections::{BTreeMap, BTreeSet};
use vstd::prelude::*;
use crate::batch::{copy_bytes, payloads, Batch, BatchView, PublicKey, Stake};
use crate::control::{canonical_missing_edge, canonical_pair};
use crate::evidence::collect_ids;
use crate::global_batch::{
    is_forward_step, is_global_batch, lemma_transactions_listed_once,
    lemma_transactions_respect_edges, listed_ids,
};
use crate::graph::{acyclic, lemma_reaches_closed, reaches};
use crate::ordered::{ascending, list_ids};
use crate::topology::{
    is_kahn_order, is_next, is_ready, kahn_order, lemma_kahn_order_complete,
    lemma_kahn_order_exists, lemma_kahn_order_unique, lemma_kahn_prefix,
    lemma_smallest_comes_first,
};
use crate::transaction::{parse_transaction_id_and_state_key, tx_id, tx_ids, Transaction};

verus! {

/// The last position of a transaction with the identifier `id`.
pub open spec fn is_last_position(txs: Seq<Seq<u8>>, id: u64, i: int) -> bool {
    &&& 0 <= i < txs.len()
    &&& tx_id(txs[i]) == Some(id)
    &&& forall|j: int| i < j < txs.len() ==> tx_id(#[trigger] txs[j]) != Some(id)
}

/// An edge of the batch leads from the transaction at `a` to the one at `b`.
pub open spec fn edge_between(batch: BatchView, a: int, b: int) -> bool {
    exists|k: int| #[trigger] edge_joins(batch, k, a, b)
}

/// Edge `k` leads from the transaction at `a` to the one at `b`.
pub open spec fn edge_joins(batch: BatchView, k: int, a: int, b: int) -> bool {
    &&& 0 <= k < batch.edges.len()
    &&& is_last_position(batch.transactions, batch.edges[k].0, a)
    &&& is_last_position(batch.transactions, batch.edges[k].1, b)
}

/// A missing pair of the batch is of the transactions at `a` and `b`.
pub open spec fn missing_between(batch: BatchView, a: int, b: int) -> bool {
    exists|k: int| #[trigger] missing_joins(batch, k, a, b)
}

/// Missing pair `k` is of the transactions at `a` and `b`, in one order or the other.
pub open spec fn missing_joins(batch: BatchView, k: int, a: int, b: int) -> bool {
    let (left, right) = batch.missing_edges[k];
    &&& 0 <= k < batch.missing_edges.len()
    &&& (is_last_position(batch.transactions, left, a) && is_last_position(
        batch.transactions,
        right,
        b,
    )) || (is_last_position(batch.transactions, left, b) && is_last_position(
        batch.transactions,
        right,
        a,
    ))
}

/// The positions of the transactions.
pub open spec fn positions(batch: BatchView) -> Set<u64> {
    Set::new(|i: u64| i < batch.transactions.len())
}

/// The order between positions: that of the edges, and for missing pairs that of the batch.
pub open spec fn position_edges(batch: BatchView) -> Set<(u64, u64)> {
    Set::new(
        |e: (u64, u64)|
            e.0 != e.1 && (edge_between(batch, e.0 as int, e.1 as int) || (e.0 < e.1
                && missing_between(batch, e.0 as int, e.1 as int))),
    )
}

/// The positions in the order of execution, as far as there is one.
pub open spec fn execution_order(batch: BatchView) -> Seq<u64> {
    choose|order: Seq<u64>| is_kahn_order(positions(batch), position_edges(batch), order)
}

/// The transactions of `txs` whose identifier is not in `done`.
pub open spec fn left_over(txs: Seq<Seq<u8>>, done: Set<u64>) -> Seq<Seq<u8>>
    decreases txs.len(),
{
    if txs.len() == 0 {
        Seq::empty()
    } else {
        let rest = left_over(txs.drop_last(), done);
        match tx_id(txs.last()) {
            Some(id) => if done.contains(id) {
                rest
            } else {
                rest.push(txs.last())
            },
            None => rest.push(txs.last()),
        }
    }
}

/// The transactions in the order of execution, as far as there is one.
pub open spec fn ordered_transactions(batch: BatchView) -> Seq<Seq<u8>> {
    execution_order(batch).map_values(|i: u64| batch.transactions[i as int])
}

/// The transactions as they are executed: those that can be ordered, then, where a cycle is in the
/// way, what is left of the batch.
pub open spec fn executed_transactions(batch: BatchView) -> Seq<Seq<u8>> {
    let ordered = ordered_transactions(batch);
    if ordered.len() < batch.transactions.len() {
        ordered + left_over(batch.transactions, tx_ids(ordered))
    } else {
        ordered
    }
}

/// A batch that is held in memory has finitely many positions.
proof fn lemma_positions_finite(batch: BatchView)
    ensures
        positions(batch).finite(),
{
    broadcast use vstd::set_lib::full_set_properties;
    vstd::set_lib::lemma_set_subset_finite(Set::<u64>::full(), positions(batch));
}

/// The order of execution is that of Kahn's algorithm.
proof fn lemma_execution_order(batch: BatchView)
    ensures
        is_kahn_order(positions(batch), position_edges(batch), execution_order(batch)),
{
    lemma_positions_finite(batch);
    let witness = lemma_kahn_order_exists(positions(batch), position_edges(batch));
}

/// For each identifier, the last position of a transaction that has it.
fn index_positions(transactions: &Vec<Transaction>) -> (index: BTreeMap<u64, u64>)
    ensures
        forall|id: u64| #[trigger]
            index@.contains_key(id) <==> tx_ids(payloads(transactions@)).contains(id),
        forall|id: u64|
            index@.contains_key(id) ==> is_last_position(
                payloads(transactions@),
                id,
                #[trigger] index@[id] as int,
            ),
{
    let mut index: BTreeMap<u64, u64> = BTreeMap::new();
    let ghost all = payloads(transactions@);
    for i in 0..transactions.len()
        invariant
            all == payloads(transactions@),
            forall|id: u64| #[trigger]
                index@.contains_key(id) <==> exists|j: int|
                    0 <= j < i && tx_id(#[trigger] all[j]) == Some(id),
            forall|id: u64|
                index@.contains_key(id) ==> #[trigger] index@[id] < i && tx_id(
                    all[index@[id] as int],
                ) == Some(id) && forall|j: int|
                    index@[id] < j < i ==> tx_id(#[trigger] all[j]) != Some(id),
    {
        let ghost before = index@;
        assert(all[i as int] == transactions@[i as int]@);
        if let Some((id, _)) = parse_transaction_id_and_state_key(&transactions[i]) {
            index.insert(id, i as u64);
        }
        assert forall|id: u64| #[trigger] index@.contains_key(id) <==> exists|j: int|
            0 <= j < i + 1 && tx_id(#[trigger] all[j]) == Some(id) by {
            assert(index@.contains_key(id) <==> before.contains_key(id) || tx_id(all[i as int])
                == Some(id));
        }
    }
    index
}

/// The order between positions.
fn collect_position_edges(batch: &Batch) -> (edges: BTreeSet<(u64, u64)>)
    ensures
        edges@ == position_edges(batch@),
{
    let index = index_positions(&batch.transactions);
    let mut edges: BTreeSet<(u64, u64)> = BTreeSet::new();
    let ghost view = batch@;
    for k in 0..batch.edges.len()
        invariant
            view == batch@,
            forall|id: u64| #[trigger]
                index@.contains_key(id) <==> tx_ids(view.transactions).contains(id),
            forall|id: u64|
                index@.contains_key(id) ==> is_last_position(
                    view.transactions,
                    id,
                    #[trigger] index@[id] as int,
                ),
            forall|e: (u64, u64)| #[trigger]
                edges@.contains(e) <==> e.0 != e.1 && exists|l: int|
                    l < k && #[trigger] edge_joins(view, l, e.0 as int, e.1 as int),
    {
        let ghost before = edges@;
        let (from, to) = batch.edges[k];
        if let Some(a) = index.get(&from) {
            if let Some(b) = index.get(&to) {
                if *a != *b {
                    edges.insert((*a, *b));
                }
            }
        }
        assert forall|e: (u64, u64)| #[trigger] edges@.contains(e) <==> e.0 != e.1 && exists|l: int|
            l < k + 1 && #[trigger] edge_joins(view, l, e.0 as int, e.1 as int) by {
            lemma_joined(view.transactions, index@, from, to, e);
            assert(edge_joins(view, k as int, e.0 as int, e.1 as int) <==> joined(
                index@,
                from,
                to,
                e,
            ));
            assert(before.contains(e) <==> e.0 != e.1 && exists|l: int|
                l < k && #[trigger] edge_joins(view, l, e.0 as int, e.1 as int));
        }
    }
    let ghost by_edges = edges@;
    for k in 0..batch.missing_edges.len()
        invariant
            view == batch@,
            forall|id: u64| #[trigger]
                index@.contains_key(id) <==> tx_ids(view.transactions).contains(id),
            forall|id: u64|
                index@.contains_key(id) ==> is_last_position(
                    view.transactions,
                    id,
                    #[trigger] index@[id] as int,
                ),
            forall|e: (u64, u64)| #[trigger]
                edges@.contains(e) <==> by_edges.contains(e) || (e.0 < e.1 && exists|l: int|
                    l < k && #[trigger] missing_joins(view, l, e.0 as int, e.1 as int)),
    {
        let ghost before = edges@;
        let (left, right) = batch.missing_edges[k];
        if let Some(a) = index.get(&left) {
            if let Some(b) = index.get(&right) {
                if *a < *b {
                    edges.insert((*a, *b));
                } else if *b < *a {
                    edges.insert((*b, *a));
                }
            }
        }
        assert forall|e: (u64, u64)| #[trigger] edges@.contains(e) <==> by_edges.contains(e) || (e.0
            < e.1 && exists|l: int|
            l < k + 1 && #[trigger] missing_joins(view, l, e.0 as int, e.1 as int)) by {
            lemma_joined(view.transactions, index@, left, right, e);
            lemma_joined(view.transactions, index@, left, right, (e.1, e.0));
            assert(missing_joins(view, k as int, e.0 as int, e.1 as int) <==> joined(
                index@,
                left,
                right,
                e,
            ) || joined(index@, left, right, (e.1, e.0)));
            assert(before.contains(e) <==> by_edges.contains(e) || (e.0 < e.1 && exists|l: int|
                l < k && #[trigger] missing_joins(view, l, e.0 as int, e.1 as int)));
        }
    }
    proof {
        assert forall|e: (u64, u64)| edges@.contains(e) <==> position_edges(view).contains(e) by {
            let (a, b) = (e.0 as int, e.1 as int);
            if edge_between(view, a, b) {
                let l = choose|l: int| #[trigger] edge_joins(view, l, a, b);
                assert(l < view.edges.len() && edge_joins(view, l, a, b));
            }
            if missing_between(view, a, b) {
                let l = choose|l: int| #[trigger] missing_joins(view, l, a, b);
                assert(l < view.missing_edges.len() && missing_joins(view, l, a, b));
            }
        }
        assert(edges@ =~= position_edges(view));
    }
    edges
}

/// `e` is of the positions of the two identifiers.
spec fn joined(index: Map<u64, u64>, from: u64, to: u64, e: (u64, u64)) -> bool {
    index.contains_key(from) && index.contains_key(to) && e == (index[from], index[to])
}

proof fn lemma_joined(
    txs: Seq<Seq<u8>>,
    index: Map<u64, u64>,
    from: u64,
    to: u64,
    e: (u64, u64),
)
    requires
        forall|id: u64| #[trigger] index.contains_key(id) <==> tx_ids(txs).contains(id),
        forall|id: u64|
            index.contains_key(id) ==> is_last_position(txs, id, #[trigger] index[id] as int),
    ensures
        joined(index, from, to, e) <==> is_last_position(txs, from, e.0 as int)
            && is_last_position(txs, to, e.1 as int),
{
    if is_last_position(txs, from, e.0 as int) {
        assert(tx_ids(txs).contains(from));
        assert(is_last_position(txs, from, index[from] as int));
        assert(index[from] == e.0);
    }
    if is_last_position(txs, to, e.1 as int) {
        assert(tx_ids(txs).contains(to));
        assert(is_last_position(txs, to, index[to] as int));
        assert(index[to] == e.1);
    }
}

/// The numbers below `n`.
fn first_numbers(n: usize) -> (set: BTreeSet<u64>)
    ensures
        set@ == Set::new(|i: u64| i < n),
{
    let mut set: BTreeSet<u64> = BTreeSet::new();
    for i in 0..n
        invariant
            set@ == Set::new(|x: u64| x < i),
    {
        set.insert(i as u64);
        assert(set@ =~= Set::new(|x: u64| x < i + 1));
    }
    set
}

/// Puts the transactions of a batch in the order of their execution.
pub(crate) fn order_for_execution(batch: &Batch) -> (ordered: Vec<Transaction>)
    ensures
        payloads(ordered@) == executed_transactions(batch@),
{
    let ghost view = batch@;
    let ghost all = view.transactions;
    let nodes = first_numbers(batch.transactions.len());
    let edges = collect_position_edges(batch);
    let order = kahn_order(&nodes, &edges);
    proof {
        assert(nodes@ =~= positions(view));
        lemma_execution_order(view);
        lemma_kahn_order_unique(nodes@, edges@, order@, execution_order(view));
        lemma_kahn_prefix(nodes@, edges@, order@);
    }
    let mut ordered: Vec<Transaction> = Vec::new();
    let ghost sorted = ordered_transactions(view);
    for i in 0..order.len()
        invariant
            view == batch@,
            all == payloads(batch.transactions@),
            sorted == order@.map_values(|i: u64| all[i as int]),
            forall|k: int|
                0 <= k < order@.len() ==> #[trigger] order@[k] < batch.transactions@.len(),
            payloads(ordered@) == sorted.take(i as int),
    {
        let ghost before = ordered@;
        assert(order@[i as int] < batch.transactions@.len());
        assert(batch.transactions@.len() == batch.transactions.len());
        let place = order[i] as usize;
        assert(place == order@[i as int]);
        let tx = copy_bytes(&batch.transactions[place]);
        ordered.push(tx);
        assert(sorted[i as int] == all[place as int]);
        assert(all[place as int] == batch.transactions@[place as int]@);
        assert(payloads(ordered@) =~= payloads(before).push(tx@));
        assert(sorted.take(i + 1) =~= sorted.take(i as int).push(sorted[i as int]));
    }
    assert(sorted.take(sorted.len() as int) =~= sorted);
    if ordered.len() < batch.transactions.len() {
        let done = collect_ids(&ordered);
        for i in 0..batch.transactions.len()
            invariant
                all == payloads(batch.transactions@),
                done@ == tx_ids(sorted),
                payloads(ordered@) == sorted + left_over(all.take(i as int), done@),
        {
            let ghost before = ordered@;
            let tx = &batch.transactions[i];
            assert(all.take(i + 1).drop_last() =~= all.take(i as int));
            assert(all[i as int] == tx@);
            let executed = match parse_transaction_id_and_state_key(tx) {
                Some((id, _)) => done.contains(&id),
                None => false,
            };
            if !executed {
                let copy = copy_bytes(tx);
                ordered.push(copy);
                assert(payloads(ordered@) =~= payloads(before).push(copy@));
            }
            assert(payloads(ordered@) =~= sorted + left_over(all.take(i + 1), done@));
        }
        assert(all.take(all.len() as int) =~= all);
    }
    ordered
}

/// A batch whose order has no cycle is executed completely: each of its transactions once,
/// and each edge leads from a transaction to a later one.
pub proof fn lemma_execution_is_complete(batch: BatchView)
    requires
        acyclic(position_edges(batch)),
        batch.transactions.len() <= u64::MAX,
    ensures
        execution_order(batch).no_duplicates(),
        execution_order(batch).to_set() == positions(batch),
        executed_transactions(batch) == ordered_transactions(batch),
        executed_transactions(batch).len() == batch.transactions.len(),
        forall|i: int, j: int|
            0 <= i < execution_order(batch).len() && 0 <= j < execution_order(batch).len()
                && #[trigger] position_edges(batch).contains(
                (execution_order(batch)[i], execution_order(batch)[j]),
            ) ==> i < j,
{
    let order = execution_order(batch);
    lemma_execution_order(batch);
    lemma_positions_finite(batch);
    lemma_kahn_order_complete(positions(batch), position_edges(batch), order);
    lemma_kahn_prefix(positions(batch), position_edges(batch), order);
    order.unique_seq_to_set();
    lemma_count_positions(batch);
}

/// There are as many positions as transactions.
proof fn lemma_count_positions(batch: BatchView)
    requires
        batch.transactions.len() <= u64::MAX,
    ensures
        positions(batch).len() == batch.transactions.len(),
{
    let n = batch.transactions.len();
    let list = Seq::new(n, |i: int| i as u64);
    assert(list.no_duplicates());
    assert forall|x: u64| list.to_set().contains(x) <==> positions(batch).contains(x) by {
        if x < n {
            assert(list[x as int] == x);
        }
        if list.contains(x) {
            let k = choose|k: int| 0 <= k < list.len() && list[k] == x;
        }
    }
    assert(list.to_set() =~= positions(batch));
    list.unique_seq_to_set();
}

/// A batch whose edges all lead from a transaction to a later one is executed as it is listed.
pub proof fn lemma_forward_batch_executes_as_listed(batch: BatchView)
    requires
        batch.transactions.len() <= u64::MAX,
        forall|a: int, b: int| #[trigger] edge_between(batch, a, b) && a != b ==> a < b,
    ensures
        executed_transactions(batch) == batch.transactions,
{
    let n = batch.transactions.len();
    let listed = Seq::new(n, |i: int| i as u64);
    let nodes = positions(batch);
    let edges = position_edges(batch);
    assert forall|i: int| 0 <= i < listed.len() implies #[trigger] is_next(
        nodes,
        edges,
        listed.take(i),
        listed[i],
    ) by {
        let taken = listed.take(i);
        assert forall|x: u64| taken.contains(x) <==> x < i by {
            if x < i {
                assert(taken[x as int] == x);
            }
            if taken.contains(x) {
                let k = choose|k: int| 0 <= k < taken.len() && taken[k] == x;
            }
        }
        assert(is_ready(nodes, edges, taken, listed[i])) by {
            assert forall|y: u64|
                nodes.contains(y) && #[trigger] edges.contains((y, listed[i])) implies taken.contains(
            y) by {
                if edge_between(batch, y as int, listed[i] as int) {
                    assert(y < listed[i]);
                }
            }
        }
    }
    assert forall|z: u64| !#[trigger] is_ready(nodes, edges, listed, z) by {
        if nodes.contains(z) {
            assert(listed[z as int] == z);
        }
    }
    lemma_execution_order(batch);
    lemma_kahn_order_unique(nodes, edges, listed, execution_order(batch));
    assert(ordered_transactions(batch) =~= batch.transactions);
}

/// The transactions of a global graph are executed in the order in which it lists them.
pub proof fn lemma_global_batch_executes_as_listed(
    name: PublicKey,
    members: Seq<(PublicKey, Stake)>,
    sequence: u64,
    graphs: Seq<BatchView>,
    earlier: Seq<(PublicKey, Set<(u64, u64)>)>,
    batch: BatchView,
)
    requires
        is_global_batch(name, members, sequence, graphs, earlier, batch),
        batch.transactions.len() <= u64::MAX,
    ensures
        executed_transactions(batch) == batch.transactions,
{
    let ids = listed_ids(batch);
    lemma_transactions_respect_edges(name, members, sequence, graphs, earlier, batch);
    lemma_transactions_listed_once(name, members, sequence, graphs, earlier, batch);
    assert forall|a: int, b: int| #[trigger] edge_between(batch, a, b) && a != b implies a < b by {
        let k = choose|k: int| #[trigger] edge_joins(batch, k, a, b);
        let e = batch.edges[k];
        assert(batch.edges.contains(e));
        let (i, j) = choose|i: int, j: int| #[trigger] is_forward_step(ids, e, i, j);
        assert(ids[a] == e.0 && ids[b] == e.1);
        assert(i == a && j == b);
    }
    lemma_forward_batch_executes_as_listed(batch);
}

/// The transaction at position `a` stands for `id`: it is the last one with this identifier.
pub open spec fn stands_for(txs: Seq<Seq<u8>>, id: u64, a: int) -> bool {
    &&& 0 <= a < txs.len()
    &&& tx_id(txs[a]) == Some(id)
    &&& forall|b: int| a < b < txs.len() ==> tx_id(#[trigger] txs[b]) != Some(id)
}

/// The batch wants the transaction at `a` before the one at `b`: an edge says so, or their order is
/// missing and the batch lists them like this.
pub open spec fn wants_before(batch: BatchView, a: int, b: int) -> bool {
    &&& a != b
    &&& exists|x: u64, y: u64|
        #![trigger stands_for(batch.transactions, x, a), stands_for(batch.transactions, y, b)]
        stands_for(batch.transactions, x, a) && stands_for(batch.transactions, y, b) && (
        batch.edges.contains((x, y)) || (a < b && (batch.missing_edges.contains((x, y))
            || batch.missing_edges.contains((y, x)))))
}

/// `order` takes each position of the batch once, and `executed` the transactions in this order. What
/// the batch wants before another transaction comes before it. Otherwise the order is that of the
/// batch: a transaction comes later than one that is listed after it only because it, or one that
/// is executed between the two, has to come before it.
pub open spec fn is_execution_in_order(
    batch: BatchView,
    executed: Seq<Seq<u8>>,
    order: Seq<u64>,
) -> bool {
    &&& order.no_duplicates()
    &&& order.len() == batch.transactions.len()
    &&& executed.len() == batch.transactions.len()
    &&& forall|i: int|
        0 <= i < order.len() ==> (#[trigger] order[i]) < batch.transactions.len() && executed[i]
            == batch.transactions[order[i] as int]
    &&& forall|i: int, j: int|
        0 <= i < order.len() && 0 <= j < order.len() && #[trigger] wants_before(
            batch,
            order[i] as int,
            order[j] as int,
        ) ==> i < j
    &&& forall|i: int, j: int|
        #![trigger order[i], order[j]]
        0 <= i < j < order.len() && order[j] < order[i] ==> exists|k: int|
            i <= k < j && #[trigger] wants_before(batch, order[k] as int, order[j] as int)
}

proof fn lemma_position_edges(batch: BatchView, e: (u64, u64))
    ensures
        position_edges(batch).contains(e) <==> wants_before(batch, e.0 as int, e.1 as int),
{
    let txs = batch.transactions;
    let a = e.0 as int;
    let b = e.1 as int;
    assert forall|id: u64, p: int| is_last_position(txs, id, p) <==> #[trigger] stands_for(
        txs,
        id,
        p,
    ) by {}
    if edge_between(batch, a, b) {
        let k = choose|k: int| #[trigger] edge_joins(batch, k, a, b);
        let (x, y) = batch.edges[k];
        assert(batch.edges.contains((x, y)));
        assert(stands_for(txs, x, a) && stands_for(txs, y, b));
    }
    if missing_between(batch, a, b) {
        let k = choose|k: int| #[trigger] missing_joins(batch, k, a, b);
        let (x, y) = batch.missing_edges[k];
        assert(batch.missing_edges.contains((x, y)));
        if is_last_position(txs, x, a) && is_last_position(txs, y, b) {
            assert(stands_for(txs, x, a) && stands_for(txs, y, b));
        } else {
            assert(stands_for(txs, y, a) && stands_for(txs, x, b));
        }
    }
    if wants_before(batch, a, b) {
        let (x, y) = choose|x: u64, y: u64|
            #![trigger stands_for(txs, x, a), stands_for(txs, y, b)]
            stands_for(txs, x, a) && stands_for(txs, y, b) && (batch.edges.contains((x, y)) || (a
                < b && (batch.missing_edges.contains((x, y)) || batch.missing_edges.contains(
                (y, x),
            ))));
        if batch.edges.contains((x, y)) {
            let k = choose|k: int| 0 <= k < batch.edges.len() && batch.edges[k] == (x, y);
            assert(edge_joins(batch, k, a, b));
        } else if batch.missing_edges.contains((x, y)) {
            let k = choose|k: int|
                0 <= k < batch.missing_edges.len() && batch.missing_edges[k] == (x, y);
            assert(missing_joins(batch, k, a, b));
        } else {
            let k = choose|k: int|
                0 <= k < batch.missing_edges.len() && batch.missing_edges[k] == (y, x);
            assert(missing_joins(batch, k, a, b));
        }
    }
}

/// A batch whose wishes do not contradict each other is executed as it wants: where some ranking of
/// the positions puts each before what it has to precede, every transaction is executed once, in an
/// order that follows all wishes and otherwise that of the batch.
pub proof fn lemma_execution_follows_the_batch(batch: BatchView, ranking: spec_fn(int) -> int)
    requires
        batch.transactions.len() <= u64::MAX,
        forall|a: int, b: int| #[trigger] wants_before(batch, a, b) ==> ranking(a) < ranking(b),
    ensures
        exists|order: Seq<u64>| #[trigger]
            is_execution_in_order(batch, executed_transactions(batch), order),
{
    let order = execution_order(batch);
    let edges = position_edges(batch);
    assert forall|a: u64, b: u64| #[trigger] edges.contains((a, b)) implies !reaches(edges, b, a) by {
        lemma_position_edges(batch, (a, b));
        if reaches(edges, b, a) {
            let above = Set::new(|z: u64| ranking(z as int) >= ranking(b as int));
            assert forall|u: u64, v: u64|
                above.contains(u) && #[trigger] edges.contains((u, v)) implies above.contains(v) by {
                lemma_position_edges(batch, (u, v));
            }
            lemma_reaches_closed(edges, above, b, a);
        }
    }
    lemma_execution_is_complete(batch);
    lemma_execution_order(batch);
    lemma_positions_finite(batch);
    order.unique_seq_to_set();
    lemma_count_positions(batch);
    assert forall|i: int| 0 <= i < order.len() implies (#[trigger] order[i])
        < batch.transactions.len() by {
        assert(order.to_set().contains(order[i]));
    }
    assert forall|i: int, j: int|
        0 <= i < order.len() && 0 <= j < order.len() && #[trigger] wants_before(
            batch,
            order[i] as int,
            order[j] as int,
        ) implies i < j by {
        lemma_position_edges(batch, (order[i], order[j]));
        assert(edges.contains((order[i], order[j])));
    }
    assert forall|i: int, j: int|
        #![trigger order[i], order[j]]
        0 <= i < j < order.len() && order[j] < order[i] implies exists|k: int|
        i <= k < j && #[trigger] wants_before(batch, order[k] as int, order[j] as int) by {
        lemma_smallest_comes_first(positions(batch), edges, order, i, j);
        let k = choose|k: int| i <= k < j && #[trigger] edges.contains((order[k], order[j]));
        lemma_position_edges(batch, (order[k], order[j]));
        assert(wants_before(batch, order[k] as int, order[j] as int));
    }
    assert(is_execution_in_order(batch, executed_transactions(batch), order));
}

proof fn lemma_left_over(txs: Seq<Seq<u8>>, done: Set<u64>, tx: Seq<u8>)
    ensures
        left_over(txs, done).contains(tx) <==> txs.contains(tx) && !(tx_id(tx) is Some
            && done.contains(tx_id(tx)->0)),
    decreases txs.len(),
{
    if txs.len() > 0 {
        let fewer = txs.drop_last();
        lemma_left_over(fewer, done, tx);
        assert(txs =~= fewer.push(txs.last()));
        crate::ordered::lemma_push_contains(fewer, txs.last());
        crate::ordered::lemma_push_contains(left_over(fewer, done), txs.last());
    }
}

/// `order` takes positions of the batch once each, and goes as far as it can: what the batch wants
/// before one of them is among them, and comes before it; and what is not among them has to wait
/// for another that is not.
pub open spec fn goes_as_far_as_it_can(batch: BatchView, order: Seq<u64>) -> bool {
    &&& order.no_duplicates()
    &&& forall|i: int| 0 <= i < order.len() ==> (#[trigger] order[i]) < batch.transactions.len()
    &&& forall|i: int, p: u64|
        0 <= i < order.len() && #[trigger] wants_before(batch, p as int, order[i] as int)
            ==> order.take(i).contains(p)
    &&& forall|q: u64|
        q < batch.transactions.len() && !order.contains(q) ==> exists|p: u64|
            !order.contains(p) && #[trigger] wants_before(batch, p as int, q as int)
    &&& forall|i: int, j: int|
        #![trigger order[i], order[j]]
        0 <= i < j < order.len() && order[j] < order[i] ==> exists|k: int|
            i <= k < j && #[trigger] wants_before(batch, order[k] as int, order[j] as int)
}

/// Whatever the batch wants, its transactions are executed in such an order, as far as it goes.
pub proof fn lemma_only_cycles_hold_back(batch: BatchView)
    requires
        batch.transactions.len() <= u64::MAX,
    ensures
        exists|order: Seq<u64>| #[trigger]
            goes_as_far_as_it_can(batch, order) && ordered_transactions(batch)
                == order.map_values(|i: u64| batch.transactions[i as int]),
{
    let order = execution_order(batch);
    let nodes = positions(batch);
    let edges = position_edges(batch);
    lemma_execution_order(batch);
    lemma_kahn_prefix(nodes, edges, order);
    assert forall|i: int| 0 <= i < order.len() implies (#[trigger] order[i])
        < batch.transactions.len() by {
        assert(nodes.contains(order[i]));
    }
    assert forall|i: int, p: u64|
        0 <= i < order.len() && #[trigger] wants_before(
            batch,
            p as int,
            order[i] as int,
        ) implies order.take(i).contains(p) by {
        lemma_position_edges(batch, (p, order[i]));
        assert(is_next(nodes, edges, order.take(i), order[i]));
        assert(nodes.contains(p));
        assert(edges.contains((p, order[i])));
    }
    assert forall|q: u64|
        q < batch.transactions.len() && !order.contains(q) implies exists|p: u64|
        !order.contains(p) && #[trigger] wants_before(batch, p as int, q as int) by {
        assert(nodes.contains(q));
        assert(!is_ready(nodes, edges, order, q));
        let p = choose|p: u64|
            nodes.contains(p) && #[trigger] edges.contains((p, q)) && !order.contains(p);
        lemma_position_edges(batch, (p, q));
        assert(wants_before(batch, p as int, q as int));
    }
    assert forall|i: int, j: int|
        #![trigger order[i], order[j]]
        0 <= i < j < order.len() && order[j] < order[i] implies exists|k: int|
        i <= k < j && #[trigger] wants_before(batch, order[k] as int, order[j] as int) by {
        lemma_smallest_comes_first(nodes, edges, order, i, j);
        let k = choose|k: int| i <= k < j && #[trigger] edges.contains((order[k], order[j]));
        lemma_position_edges(batch, (order[k], order[j]));
        assert(wants_before(batch, order[k] as int, order[j] as int));
    }
    assert(goes_as_far_as_it_can(batch, order));
}

/// What a cycle keeps from being ordered follows in the order of the batch.
pub proof fn lemma_rest_follows_in_order(batch: BatchView)
    ensures
        ordered_transactions(batch).len() < batch.transactions.len() ==> executed_transactions(
            batch,
        ) == ordered_transactions(batch) + batch.transactions.filter(
            |tx: Seq<u8>|
                tx_id(tx) is None || !tx_ids(ordered_transactions(batch)).contains(tx_id(tx)->0),
        ),
{
    lemma_left_over_is_filter(batch.transactions, tx_ids(ordered_transactions(batch)));
}

proof fn lemma_left_over_is_filter(txs: Seq<Seq<u8>>, done: Set<u64>)
    ensures
        left_over(txs, done) == txs.filter(
            |tx: Seq<u8>| tx_id(tx) is None || !done.contains(tx_id(tx)->0),
        ),
    decreases txs.len(),
{
    reveal(Seq::filter);
    if txs.len() > 0 {
        lemma_left_over_is_filter(txs.drop_last(), done);
    }
}

/// Nothing is left out and nothing is made up, whatever the batch wants: of each identifier of the
/// batch a transaction is executed, and so is each transaction without one; and whatever is
/// executed is a transaction of the batch.
pub proof fn lemma_nothing_is_left_out(batch: BatchView, tx: Seq<u8>)
    requires
        batch.transactions.len() <= u64::MAX,
    ensures
        batch.transactions.contains(tx) && tx_id(tx) is None ==> executed_transactions(
            batch,
        ).contains(tx),
        executed_transactions(batch).contains(tx) ==> batch.transactions.contains(tx),
        tx_ids(executed_transactions(batch)) == tx_ids(batch.transactions),
{
    let txs = batch.transactions;
    let order = execution_order(batch);
    let ordered = ordered_transactions(batch);
    let executed = executed_transactions(batch);
    lemma_execution_order(batch);
    lemma_kahn_prefix(positions(batch), position_edges(batch), order);
    assert forall|i: int| 0 <= i < ordered.len() implies txs.contains(#[trigger] ordered[i]) by {
        assert(positions(batch).contains(order[i]));
        assert(ordered[i] == txs[order[i] as int]);
    }
    let rest = left_over(txs, tx_ids(ordered));
    if ordered.len() < txs.len() {
        assert forall|t: Seq<u8>| #[trigger] executed.contains(t) <==> ordered.contains(t)
            || rest.contains(t) by {
            if executed.contains(t) {
                let i = choose|i: int| 0 <= i < executed.len() && executed[i] == t;
                if i < ordered.len() {
                    assert(ordered[i] == t);
                } else {
                    assert(rest[i - ordered.len()] == t);
                }
            }
            if ordered.contains(t) {
                let i = choose|i: int| 0 <= i < ordered.len() && ordered[i] == t;
                assert(executed[i] == t);
            }
            if rest.contains(t) {
                let i = choose|i: int| 0 <= i < rest.len() && rest[i] == t;
                assert(executed[i + ordered.len()] == t);
            }
        }
        lemma_left_over(txs, tx_ids(ordered), tx);
        assert forall|id: u64| tx_ids(executed).contains(id) <==> tx_ids(txs).contains(id) by {
            if tx_ids(executed).contains(id) {
                let i = choose|i: int|
                    0 <= i < executed.len() && tx_id(#[trigger] executed[i]) == Some(id);
                assert(executed.contains(executed[i]));
                lemma_left_over(txs, tx_ids(ordered), executed[i]);
                if ordered.contains(executed[i]) {
                    let k = choose|k: int| 0 <= k < ordered.len() && ordered[k] == executed[i];
                    assert(txs.contains(ordered[k]));
                }
                let k = choose|k: int| 0 <= k < txs.len() && txs[k] == executed[i];
                assert(tx_id(txs[k]) == Some(id));
            }
            if tx_ids(txs).contains(id) {
                let i = choose|i: int| 0 <= i < txs.len() && tx_id(#[trigger] txs[i]) == Some(id);
                lemma_left_over(txs, tx_ids(ordered), txs[i]);
                if tx_ids(ordered).contains(id) {
                    let k = choose|k: int|
                        0 <= k < ordered.len() && tx_id(#[trigger] ordered[k]) == Some(id);
                    assert(executed[k] == ordered[k]);
                } else {
                    assert(txs.contains(txs[i]));
                    assert(executed.contains(txs[i]));
                    let k = choose|k: int| 0 <= k < executed.len() && executed[k] == txs[i];
                    assert(tx_id(executed[k]) == Some(id));
                }
            }
        }
        if ordered.contains(tx) {
            let i = choose|i: int| 0 <= i < ordered.len() && ordered[i] == tx;
            assert(txs.contains(ordered[i]));
        }
        assert(executed.contains(tx) <==> ordered.contains(tx) || rest.contains(tx));
    } else {
        lemma_all_positions_taken(batch);
        assert forall|k: int| 0 <= k < txs.len() implies executed.contains(#[trigger] txs[k]) by {
            assert(positions(batch).contains(k as u64));
            assert(order.to_set().contains(k as u64));
            let i = choose|i: int| 0 <= i < order.len() && order[i] == k as u64;
            assert(executed[i] == txs[k]);
        }
        if txs.contains(tx) {
            let k = choose|k: int| 0 <= k < txs.len() && txs[k] == tx;
            assert(executed.contains(txs[k]));
        }
        if executed.contains(tx) {
            let i = choose|i: int| 0 <= i < executed.len() && executed[i] == tx;
            assert(txs.contains(ordered[i]));
        }
        assert forall|id: u64| tx_ids(executed).contains(id) <==> tx_ids(txs).contains(id) by {
            if tx_ids(executed).contains(id) {
                let i = choose|i: int|
                    0 <= i < executed.len() && tx_id(#[trigger] executed[i]) == Some(id);
                assert(txs.contains(ordered[i]));
                let k = choose|k: int| 0 <= k < txs.len() && txs[k] == ordered[i];
                assert(tx_id(txs[k]) == Some(id));
            }
            if tx_ids(txs).contains(id) {
                let k = choose|k: int| 0 <= k < txs.len() && tx_id(#[trigger] txs[k]) == Some(id);
                assert(executed.contains(txs[k]));
                let i = choose|i: int| 0 <= i < executed.len() && executed[i] == txs[k];
                assert(tx_id(executed[i]) == Some(id));
            }
        }
    }
    assert(tx_ids(executed) =~= tx_ids(txs));
}

/// Where as many positions are ordered as there are, all are.
proof fn lemma_all_positions_taken(batch: BatchView)
    requires
        batch.transactions.len() <= u64::MAX,
        execution_order(batch).len() >= batch.transactions.len(),
    ensures
        execution_order(batch).to_set() == positions(batch),
{
    let order = execution_order(batch);
    lemma_execution_order(batch);
    lemma_positions_finite(batch);
    lemma_kahn_prefix(positions(batch), position_edges(batch), order);
    lemma_count_positions(batch);
    order.unique_seq_to_set();
    assert(order.to_set().subset_of(positions(batch))) by {
        assert forall|x: u64| order.to_set().contains(x) implies positions(batch).contains(x) by {
            let i = choose|i: int| 0 <= i < order.len() && order[i] == x;
            assert(positions(batch).contains(order[i]));
        }
    }
    vstd::set_lib::lemma_len_subset(order.to_set(), positions(batch));
    vstd::set_lib::lemma_subset_equality(order.to_set(), positions(batch));
}

/// The pairs that a batch leaves open among its own transactions are its missing pairs with both
/// ends in the batch, the smaller end first.
pub proof fn lemma_own_open_pairs(batch: BatchView, p: (u64, u64))
    ensures
        internal_pairs(batch).contains(p) <==> p.0 <= p.1 && tx_ids(batch.transactions).contains(p.0)
            && tx_ids(batch.transactions).contains(p.1) && (batch.missing_edges.contains(p)
            || batch.missing_edges.contains((p.1, p.0))),
{
    if internal_pairs(batch).contains(p) {
        let k = choose|k: int| #[trigger] is_internal(batch, p, k);
        assert(batch.missing_edges.contains(batch.missing_edges[k]));
    }
    if p.0 <= p.1 && tx_ids(batch.transactions).contains(p.0) && tx_ids(
        batch.transactions,
    ).contains(p.1) {
        if batch.missing_edges.contains(p) {
            let k = choose|k: int|
                0 <= k < batch.missing_edges.len() && batch.missing_edges[k] == p;
            assert(is_internal(batch, p, k));
        }
        if batch.missing_edges.contains((p.1, p.0)) {
            let k = choose|k: int|
                0 <= k < batch.missing_edges.len() && batch.missing_edges[k] == (p.1, p.0);
            assert(is_internal(batch, p, k));
        }
    }
}

/// What the missing pairs of a batch come to: the transactions outside that have to be executed
/// before, and the number of pairs within the batch.
pub struct MissingEdgeSummary {
    pub external_dependencies: Vec<u64>,
    pub same_batch_pair_count: usize,
}

/// `id` is the other end of a missing pair with one end in the batch.
pub open spec fn is_external(batch: BatchView, id: u64, k: int) -> bool {
    let ids = tx_ids(batch.transactions);
    let (left, right) = batch.missing_edges[k];
    &&& 0 <= k < batch.missing_edges.len()
    &&& (ids.contains(left) && !ids.contains(right) && id == right) || (!ids.contains(left)
        && ids.contains(right) && id == left)
}

/// The transactions outside the batch that form a missing pair with one of the batch.
pub open spec fn external_dependencies(batch: BatchView) -> Set<u64> {
    Set::new(|id: u64| exists|k: int| #[trigger] is_external(batch, id, k))
}

/// `p` is a missing pair with both ends in the batch, the smaller identifier first.
pub open spec fn is_internal(batch: BatchView, p: (u64, u64), k: int) -> bool {
    let ids = tx_ids(batch.transactions);
    let (left, right) = batch.missing_edges[k];
    &&& 0 <= k < batch.missing_edges.len()
    &&& ids.contains(left) && ids.contains(right) && p == canonical_pair(left, right)
}

/// The missing pairs with both ends in the batch.
pub open spec fn internal_pairs(batch: BatchView) -> Set<(u64, u64)> {
    Set::new(|p: (u64, u64)| exists|k: int| #[trigger] is_internal(batch, p, k))
}

/// Summarizes the missing pairs of a batch.
pub(crate) fn summarize(batch: &Batch) -> (summary: MissingEdgeSummary)
    ensures
        ascending(summary.external_dependencies@),
        summary.external_dependencies@.to_set() == external_dependencies(batch@),
        summary.same_batch_pair_count == internal_pairs(batch@).len(),
{
    let ghost view = batch@;
    let ids = collect_ids(&batch.transactions);
    let mut external: BTreeSet<u64> = BTreeSet::new();
    let mut internal: BTreeSet<(u64, u64)> = BTreeSet::new();
    for k in 0..batch.missing_edges.len()
        invariant
            view == batch@,
            ids@ == tx_ids(view.transactions),
            forall|id: u64| #[trigger]
                external@.contains(id) <==> exists|l: int| l < k && #[trigger] is_external(view, id, l),
            forall|p: (u64, u64)| #[trigger]
                internal@.contains(p) <==> exists|l: int| l < k && #[trigger] is_internal(view, p, l),
    {
        let ghost external_before = external@;
        let ghost internal_before = internal@;
        let (left, right) = batch.missing_edges[k];
        let left_in = ids.contains(&left);
        let right_in = ids.contains(&right);
        if left_in && !right_in {
            external.insert(right);
        } else if !left_in && right_in {
            external.insert(left);
        } else if left_in && right_in {
            internal.insert(canonical_missing_edge(left, right));
        }
        assert forall|id: u64| #[trigger] external@.contains(id) <==> exists|l: int|
            l < k + 1 && #[trigger] is_external(view, id, l) by {
            assert(external@.contains(id) <==> external_before.contains(id) || is_external(
                view,
                id,
                k as int,
            ));
            assert(external_before.contains(id) <==> exists|l: int|
                l < k && #[trigger] is_external(view, id, l));
        }
        assert forall|p: (u64, u64)| #[trigger] internal@.contains(p) <==> exists|l: int|
            l < k + 1 && #[trigger] is_internal(view, p, l) by {
            assert(internal@.contains(p) <==> internal_before.contains(p) || is_internal(
                view,
                p,
                k as int,
            ));
            assert(internal_before.contains(p) <==> exists|l: int|
                l < k && #[trigger] is_internal(view, p, l));
        }
    }
    proof {
        assert forall|id: u64| external@.contains(id) <==> external_dependencies(view).contains(id) by {
            if external_dependencies(view).contains(id) {
                let k = choose|k: int| #[trigger] is_external(view, id, k);
                assert(k < view.missing_edges.len() && is_external(view, id, k));
            }
        }
        assert(external@ =~= external_dependencies(view));
        assert forall|p: (u64, u64)| internal@.contains(p) <==> internal_pairs(view).contains(p) by {
            if internal_pairs(view).contains(p) {
                let k = choose|k: int| #[trigger] is_internal(view, p, k);
                assert(k < view.missing_edges.len() && is_internal(view, p, k));
            }
        }
        assert(internal@ =~= internal_pairs(view));
    }
    MissingEdgeSummary {
        external_dependencies: list_ids(&external),
        same_batch_pair_count: internal.len(),
    }
}

} // verus!
