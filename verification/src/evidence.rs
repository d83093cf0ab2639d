//! What a set of local graphs says of the transactions: who supports which
//! transaction, which bytes stand for it, and which state it writes.

use std::collections::{BTreeMap, BTreeSet};
use vstd::prelude::*;
use crate::batch::{
    batch_views, bytes_less, bytes_lt, copy_bytes, lemma_bytes_lt_total, lemma_bytes_lt_trans,
    payloads, Batch, BatchView, PublicKey, Stake,
};
use crate::committee::{stake_of, Committee};
use crate::transaction::{
    parse_standard_transaction, parse_transaction_id_and_state_key, standard_id, standard_id_and_key, tx_id,
    tx_ids, Transaction,
};

verus! {

/// The transactions of all graphs, one graph after the other.
pub open spec fn all_transactions(graphs: Seq<BatchView>) -> Seq<Seq<u8>>
    decreases graphs.len(),
{
    if graphs.len() == 0 {
        Seq::empty()
    } else {
        all_transactions(graphs.drop_last()) + graphs.last().transactions
    }
}

/// The state key in the first standard transaction with the identifier `id`.
pub open spec fn first_key(txs: Seq<Seq<u8>>, id: u64) -> Option<u8>
    decreases txs.len(),
{
    if txs.len() == 0 {
        None
    } else if first_key(txs.drop_last(), id) is Some {
        first_key(txs.drop_last(), id)
    } else {
        match standard_id_and_key(txs.last()) {
            Some((other, key)) => if other == id {
                Some(key)
            } else {
                None
            },
            None => None,
        }
    }
}

/// The state key of each standard transaction.
pub open spec fn state_keys(txs: Seq<Seq<u8>>) -> Map<u64, u8> {
    Map::new(|id: u64| first_key(txs, id) is Some, |id: u64| first_key(txs, id)->0)
}

/// `tx` is the smallest of the transactions with the identifier `id`.
pub open spec fn is_canonical(txs: Seq<Seq<u8>>, id: u64, tx: Seq<u8>) -> bool {
    &&& txs.contains(tx)
    &&& tx_id(tx) == Some(id)
    &&& forall|i: int|
        0 <= i < txs.len() && tx_id(#[trigger] txs[i]) == Some(id) ==> !bytes_lt(txs[i], tx)
}

/// At most one transaction stands for an identifier.
pub proof fn lemma_canonical_unique(txs: Seq<Seq<u8>>, id: u64, s: Seq<u8>, t: Seq<u8>)
    requires
        is_canonical(txs, id, s),
        is_canonical(txs, id, t),
    ensures
        s == t,
{
    let i = choose|i: int| 0 <= i < txs.len() && txs[i] == s;
    let j = choose|j: int| 0 <= j < txs.len() && txs[j] == t;
    assert(tx_id(txs[i]) == Some(id) && tx_id(txs[j]) == Some(id));
    lemma_bytes_lt_total(s, t);
}

/// The state of a transaction is the one that the first standard transaction with its identifier
/// writes.
pub proof fn lemma_first_writer_decides(txs: Seq<Seq<u8>>, i: int, id: u64, key: u8)
    requires
        0 <= i < txs.len(),
        standard_id_and_key(txs[i]) == Some((id, key)),
        forall|j: int| 0 <= j < i ==> standard_id(#[trigger] txs[j]) != Some(id),
    ensures
        state_keys(txs).contains_key(id),
        state_keys(txs)[id] == key,
    decreases txs.len(),
{
    let fewer = txs.drop_last();
    assert forall|j: int| 0 <= j < i implies standard_id(#[trigger] fewer[j]) != Some(id) by {
        assert(fewer[j] == txs[j]);
    }
    if i < fewer.len() {
        lemma_first_writer_decides(fewer, i, id, key);
        assert(first_key(fewer, id) == Some(key));
    } else {
        lemma_no_writer_no_state(fewer, id);
    }
}

/// An identifier without a standard transaction has no state.
pub proof fn lemma_no_writer_no_state(txs: Seq<Seq<u8>>, id: u64)
    requires
        forall|j: int| 0 <= j < txs.len() ==> standard_id(#[trigger] txs[j]) != Some(id),
    ensures
        !state_keys(txs).contains_key(id),
    decreases txs.len(),
{
    if txs.len() > 0 {
        let fewer = txs.drop_last();
        assert forall|j: int| 0 <= j < fewer.len() implies standard_id(#[trigger] fewer[j]) != Some(
            id,
        ) by {
            assert(fewer[j] == txs[j]);
        }
        lemma_no_writer_no_state(fewer, id);
        assert(standard_id(txs[txs.len() - 1]) != Some(id));
    }
}

/// The transactions of the graphs of two lists are those of the one, then those of the other.
pub proof fn lemma_graphs_add_up(graphs: Seq<BatchView>, more: Seq<BatchView>, graph: BatchView)
    ensures
        all_transactions(graphs + more) == all_transactions(graphs) + all_transactions(more),
        all_transactions(seq![graph]) == graph.transactions,
    decreases more.len(),
{
    reveal_with_fuel(all_transactions, 2);
    assert(seq![graph].drop_last() =~= Seq::empty());
    assert(all_transactions(seq![graph]) =~= graph.transactions);
    if more.len() == 0 {
        assert(graphs + more =~= graphs);
        assert(all_transactions(graphs) + all_transactions(more) =~= all_transactions(graphs));
    } else {
        lemma_graphs_add_up(graphs, more.drop_last(), graph);
        assert((graphs + more).drop_last() =~= graphs + more.drop_last());
        assert(all_transactions(graphs + more) =~= all_transactions(graphs) + all_transactions(
            more,
        ));
    }
}

/// The stakes of the authors of the graphs.
pub open spec fn graph_stakes(members: Seq<(PublicKey, Stake)>, graphs: Seq<BatchView>) -> Seq<Stake> {
    graphs.map_values(|graph: BatchView| stake_of(members, graph.author))
}

/// The transactions that each graph supports.
pub open spec fn id_votes(graphs: Seq<BatchView>) -> Seq<Set<u64>> {
    graphs.map_values(|graph: BatchView| tx_ids(graph.transactions))
}

/// The identifiers of some transactions.
pub(crate) fn collect_ids(transactions: &Vec<Transaction>) -> (ids: BTreeSet<u64>)
    ensures
        ids@ == tx_ids(payloads(transactions@)),
{
    let mut ids: BTreeSet<u64> = BTreeSet::new();
    let ghost all = payloads(transactions@);
    for i in 0..transactions.len()
        invariant
            all == payloads(transactions@),
            forall|id: u64| #[trigger]
                ids@.contains(id) <==> exists|j: int| 0 <= j < i && tx_id(#[trigger] all[j]) == Some(id),
    {
        let ghost before = ids@;
        assert(all[i as int] == transactions@[i as int]@);
        if let Some((id, _)) = parse_transaction_id_and_state_key(&transactions[i]) {
            ids.insert(id);
        }
        assert forall|id: u64| #[trigger] ids@.contains(id) <==> exists|j: int|
            0 <= j < i + 1 && tx_id(#[trigger] all[j]) == Some(id) by {
            assert(ids@.contains(id) <==> before.contains(id) || tx_id(all[i as int]) == Some(id));
        }
    }
    assert(ids@ =~= tx_ids(all));
    ids
}

/// The stakes of the authors of the graphs.
pub(crate) fn collect_stakes(committee: &Committee, graphs: &Vec<Batch>) -> (stakes: Vec<Stake>)
    ensures
        stakes@ == graph_stakes(committee@, batch_views(graphs@)),
{
    let mut stakes: Vec<Stake> = Vec::new();
    let ghost all = graph_stakes(committee@, batch_views(graphs@));
    for i in 0..graphs.len()
        invariant
            all == graph_stakes(committee@, batch_views(graphs@)),
            stakes@ == all.take(i as int),
    {
        stakes.push(committee.stake(&graphs[i].author));
        assert(all.take(i + 1) =~= all.take(i as int).push(all[i as int]));
    }
    assert(all.take(all.len() as int) =~= all);
    stakes
}

/// The transactions that each graph supports.
pub(crate) fn collect_id_votes(graphs: &Vec<Batch>) -> (votes: Vec<BTreeSet<u64>>)
    ensures
        crate::votes::set_views(votes@) == id_votes(batch_views(graphs@)),
{
    let mut votes: Vec<BTreeSet<u64>> = Vec::new();
    let ghost all = id_votes(batch_views(graphs@));
    for i in 0..graphs.len()
        invariant
            all == id_votes(batch_views(graphs@)),
            crate::votes::set_views(votes@) == all.take(i as int),
    {
        let ghost before = votes@;
        let ids = collect_ids(&graphs[i].transactions);
        votes.push(ids);
        assert(crate::votes::set_views(votes@) =~= crate::votes::set_views(before).push(ids@));
        assert(all.take(i + 1) =~= all.take(i as int).push(all[i as int]));
    }
    assert(all.take(all.len() as int) =~= all);
    votes
}

/// One more transaction.
proof fn lemma_push_transaction(txs: Seq<Seq<u8>>, tx: Seq<u8>)
    ensures
        forall|id: u64| #[trigger]
            tx_ids(txs.push(tx)).contains(id) <==> tx_ids(txs).contains(id) || tx_id(tx) == Some(id),
        forall|id: u64| #[trigger]
            first_key(txs.push(tx), id) == (if first_key(txs, id) is Some {
                first_key(txs, id)
            } else {
                match standard_id_and_key(tx) {
                    Some((other, key)) => if other == id {
                        Some(key)
                    } else {
                        None
                    },
                    None => None,
                }
            }),
{
    let more = txs.push(tx);
    assert(more.drop_last() =~= txs);
    assert forall|id: u64| #[trigger] tx_ids(more).contains(id) <==> tx_ids(txs).contains(id)
        || tx_id(tx) == Some(id) by {
        if tx_ids(txs).contains(id) {
            let i = choose|i: int| 0 <= i < txs.len() && tx_id(#[trigger] txs[i]) == Some(id);
            assert(more[i] == txs[i]);
        }
        if tx_id(tx) == Some(id) {
            assert(more[txs.len() as int] == tx);
        }
        if tx_ids(more).contains(id) {
            let i = choose|i: int| 0 <= i < more.len() && tx_id(#[trigger] more[i]) == Some(id);
            if i < txs.len() {
                assert(txs[i] == more[i]);
            }
        }
    }
}

/// The smallest transaction after one more of the same identifier.
proof fn lemma_push_canonical(txs: Seq<Seq<u8>>, tx: Seq<u8>, id: u64, current: Seq<u8>)
    requires
        is_canonical(txs, id, current),
    ensures
        tx_id(tx) != Some(id) ==> is_canonical(txs.push(tx), id, current),
        tx_id(tx) == Some(id) && !bytes_lt(tx, current) ==> is_canonical(txs.push(tx), id, current),
        tx_id(tx) == Some(id) && bytes_lt(tx, current) ==> is_canonical(txs.push(tx), id, tx),
{
    let more = txs.push(tx);
    let k = choose|k: int| 0 <= k < txs.len() && txs[k] == current;
    assert(more[k] == current);
    assert(more[txs.len() as int] == tx);
    assert(more.contains(tx));
    if tx_id(tx) == Some(id) && bytes_lt(tx, current) {
        assert forall|i: int|
            0 <= i < more.len() && tx_id(#[trigger] more[i]) == Some(id) implies !bytes_lt(
            more[i],
            tx,
        ) by {
            if i < txs.len() {
                assert(txs[i] == more[i]);
                if bytes_lt(txs[i], tx) {
                    lemma_bytes_lt_trans(txs[i], tx, current);
                }
            } else {
                lemma_bytes_lt_total(tx, tx);
            }
        }
    } else {
        assert forall|i: int|
            0 <= i < more.len() && tx_id(#[trigger] more[i]) == Some(id) implies !bytes_lt(
            more[i],
            current,
        ) by {
            if i < txs.len() {
                assert(txs[i] == more[i]);
            }
        }
    }
}

/// The only transaction of an identifier is the smallest.
proof fn lemma_first_canonical(txs: Seq<Seq<u8>>, tx: Seq<u8>, id: u64)
    requires
        tx_id(tx) == Some(id),
        !tx_ids(txs).contains(id),
    ensures
        is_canonical(txs.push(tx), id, tx),
{
    let more = txs.push(tx);
    assert(more[txs.len() as int] == tx);
    assert forall|i: int|
        0 <= i < more.len() && tx_id(#[trigger] more[i]) == Some(id) implies !bytes_lt(
        more[i],
        tx,
    ) by {
        if i < txs.len() {
            assert(txs[i] == more[i]);
        }
        lemma_bytes_lt_total(tx, tx);
    }
}

/// Takes one more transaction into account.
fn note_transaction(
    tx: &Transaction,
    keys: &mut BTreeMap<u64, u8>,
    canonical: &mut BTreeMap<u64, Transaction>,
    Ghost(seen): Ghost<Seq<Seq<u8>>>,
)
    requires
        old(keys)@ == state_keys(seen),
        old(canonical)@.dom() == tx_ids(seen),
        forall|id: u64|
            old(canonical)@.contains_key(id) ==> is_canonical(
                seen,
                id,
                #[trigger] old(canonical)@[id]@,
            ),
    ensures
        final(keys)@ == state_keys(seen.push(tx@)),
        final(canonical)@.dom() == tx_ids(seen.push(tx@)),
        forall|id: u64|
            final(canonical)@.contains_key(id) ==> is_canonical(
                seen.push(tx@),
                id,
                #[trigger] final(canonical)@[id]@,
            ),
{
    let ghost more = seen.push(tx@);
    let ghost keys_before = keys@;
    let ghost before = canonical@;
    proof {
        lemma_push_transaction(seen, tx@);
    }
    if let Some((id, _)) = parse_transaction_id_and_state_key(tx) {
        let smaller = match canonical.get(&id) {
            Some(current) => bytes_less(tx, current),
            None => true,
        };
        if smaller {
            canonical.insert(id, copy_bytes(tx));
        }
        if let Some((_, key)) = parse_standard_transaction(tx) {
            if !keys.contains_key(&id) {
                keys.insert(id, key);
            }
        }
        proof {
            assert forall|other: u64| canonical@.contains_key(other) implies is_canonical(
                more,
                other,
                #[trigger] canonical@[other]@,
            ) by {
                if other == id && !before.contains_key(id) {
                    lemma_first_canonical(seen, tx@, id);
                } else {
                    assert(is_canonical(seen, other, before[other]@));
                    lemma_push_canonical(seen, tx@, other, before[other]@);
                }
            }
        }
    } else {
        proof {
            assert forall|other: u64| canonical@.contains_key(other) implies is_canonical(
                more,
                other,
                #[trigger] canonical@[other]@,
            ) by {
                lemma_push_canonical(seen, tx@, other, before[other]@);
            }
        }
    }
    proof {
        assert forall|other: u64| canonical@.dom().contains(other) <==> tx_ids(more).contains(other) by {
            assert(before.dom().contains(other) <==> tx_ids(seen).contains(other));
        }
        assert(canonical@.dom() =~= tx_ids(more));
        assert forall|other: u64| #[trigger]
            keys@.contains_key(other) <==> state_keys(more).contains_key(other) by {
            assert(keys_before.contains_key(other) <==> first_key(seen, other) is Some);
            assert(first_key(more, other) is Some <==> state_keys(more).contains_key(other));
        }
        assert forall|other: u64| keys@.contains_key(other) implies #[trigger] keys@[other]
            == state_keys(more)[other] by {
            assert(first_key(more, other) is Some);
            if first_key(seen, other) is Some {
                assert(keys_before.contains_key(other));
                assert(keys_before[other] == state_keys(seen)[other]);
            }
        }
        assert(keys@ =~= state_keys(more));
    }
}

/// The state keys of the transactions, and the bytes that stand for each of them.
pub(crate) fn collect_transactions(graphs: &Vec<Batch>) -> (collected: (
    BTreeMap<u64, u8>,
    BTreeMap<u64, Transaction>,
))
    ensures
        collected.0@ == state_keys(all_transactions(batch_views(graphs@))),
        collected.1@.dom() == tx_ids(all_transactions(batch_views(graphs@))),
        forall|id: u64|
            collected.1@.contains_key(id) ==> is_canonical(
                all_transactions(batch_views(graphs@)),
                id,
                #[trigger] collected.1@[id]@,
            ),
{
    let mut keys: BTreeMap<u64, u8> = BTreeMap::new();
    let mut canonical: BTreeMap<u64, Transaction> = BTreeMap::new();
    let ghost views = batch_views(graphs@);
    assert(keys@ =~= state_keys(all_transactions(views.take(0))));
    assert(canonical@.dom() =~= tx_ids(all_transactions(views.take(0))));
    for i in 0..graphs.len()
        invariant
            views == batch_views(graphs@),
            keys@ == state_keys(all_transactions(views.take(i as int))),
            canonical@.dom() == tx_ids(all_transactions(views.take(i as int))),
            forall|id: u64|
                canonical@.contains_key(id) ==> is_canonical(
                    all_transactions(views.take(i as int)),
                    id,
                    #[trigger] canonical@[id]@,
                ),
    {
        let graph = &graphs[i];
        let ghost done = all_transactions(views.take(i as int));
        let ghost txs = payloads(graph.transactions@);
        assert(done + txs.take(0) =~= done);
        for j in 0..graph.transactions.len()
            invariant
                txs == payloads(graph.transactions@),
                keys@ == state_keys(done + txs.take(j as int)),
                canonical@.dom() == tx_ids(done + txs.take(j as int)),
                forall|id: u64|
                    canonical@.contains_key(id) ==> is_canonical(
                        done + txs.take(j as int),
                        id,
                        #[trigger] canonical@[id]@,
                    ),
        {
            let ghost seen = done + txs.take(j as int);
            note_transaction(&graph.transactions[j], &mut keys, &mut canonical, Ghost(seen));
            assert(done + txs.take(j + 1) =~= seen.push(txs[j as int]));
        }
        assert(txs.take(txs.len() as int) =~= txs);
        assert(views.take(i + 1).drop_last() =~= views.take(i as int));
        assert(views.take(i + 1).last() == graph@);
    }
    assert(views.take(views.len() as int) =~= views);
    (keys, canonical)
}

} // verus!
