//! Control messages from the executor to the batch maker.

use std::collections::BTreeSet;
use vstd::prelude::*;
use crate::batch::{payloads, Batch, BatchView};
use crate::ordered::{ascending, ascending_pairs, list_ids, list_pairs, set_of_ids};
use crate::transaction::{parse_standard_transaction, standard_id, standard_ids, Transaction};

verus! {

/// What a batch maker needs to know of a globally ordered batch.
#[derive(Clone, Debug, PartialEq, Eq)]
pub struct GlobalGraphInfo {
    pub sequence: u64,
    pub tx_ids: Vec<u64>,
    pub missing_edges: Vec<(u64, u64)>,
}

/// A control message to a batch maker.
#[derive(Clone, Debug, PartialEq, Eq)]
pub enum BatchMakerControl {
    /// A batch was globally ordered.
    ObserveGlobalGraph(GlobalGraphInfo),
    /// Transactions were executed.
    MarkProcessed(Vec<u64>),
}

/// The contents of a `GlobalGraphInfo`.
pub struct InfoView {
    pub sequence: u64,
    pub tx_ids: Seq<u64>,
    pub missing_edges: Seq<(u64, u64)>,
}

/// The contents of a `BatchMakerControl`.
pub enum ControlView {
    ObserveGlobalGraph(InfoView),
    MarkProcessed(Seq<u64>),
}

impl View for GlobalGraphInfo {
    type V = InfoView;

    open spec fn view(&self) -> InfoView {
        InfoView {
            sequence: self.sequence,
            tx_ids: self.tx_ids@,
            missing_edges: self.missing_edges@,
        }
    }
}

impl View for BatchMakerControl {
    type V = ControlView;

    open spec fn view(&self) -> ControlView {
        match self {
            BatchMakerControl::ObserveGlobalGraph(info) => ControlView::ObserveGlobalGraph(info@),
            BatchMakerControl::MarkProcessed(ids) => ControlView::MarkProcessed(ids@),
        }
    }
}

/// The pair with its smaller identifier first.
pub open spec fn canonical_pair(left: u64, right: u64) -> (u64, u64) {
    if left <= right {
        (left, right)
    } else {
        (right, left)
    }
}

/// All of `pairs`, each with its smaller identifier first.
pub open spec fn canonical_pairs(pairs: Seq<(u64, u64)>) -> Set<(u64, u64)> {
    Set::new(
        |p: (u64, u64)|
            exists|i: int|
                0 <= i < pairs.len() && p == canonical_pair((#[trigger] pairs[i]).0, pairs[i].1),
    )
}

/// `info` is what is told of `batch`.
pub open spec fn describes(info: InfoView, batch: BatchView) -> bool {
    &&& info.sequence == batch.sequence
    &&& ascending(info.tx_ids)
    &&& info.tx_ids.to_set() == standard_ids(batch.transactions)
    &&& ascending_pairs(info.missing_edges)
    &&& info.missing_edges.to_set() == canonical_pairs(batch.missing_edges)
}

/// A pair is the same whichever of its ends is named first: both of them, the smaller one first.
pub proof fn lemma_pairs_have_no_direction(left: u64, right: u64)
    ensures
        canonical_pair(left, right) == canonical_pair(right, left),
        canonical_pair(left, right).0 <= canonical_pair(left, right).1,
        canonical_pair(left, right) == (left, right) || canonical_pair(left, right) == (
            right,
            left,
        ),
{
}

/// Whoever is told of a batch hears of each of its missing pairs, of no other pair, and of its
/// standard transactions.
pub proof fn lemma_told_of_every_pair(info: InfoView, batch: BatchView, left: u64, right: u64)
    requires
        describes(info, batch),
    ensures
        left <= right ==> (info.missing_edges.contains((left, right)) <==>
            batch.missing_edges.contains((left, right)) || batch.missing_edges.contains(
            (right, left),
        )),
        left > right ==> !info.missing_edges.contains((left, right)),
        info.sequence == batch.sequence,
        info.tx_ids.contains(left) <==> exists|i: int|
            0 <= i < batch.transactions.len() && standard_id(#[trigger] batch.transactions[i])
                == Some(left),
{
    let pairs = batch.missing_edges;
    let p = (left, right);
    assert(info.missing_edges.contains(p) <==> info.missing_edges.to_set().contains(p));
    assert(info.tx_ids.contains(left) <==> info.tx_ids.to_set().contains(left));
    if canonical_pairs(pairs).contains(p) {
        let i = choose|i: int|
            0 <= i < pairs.len() && p == canonical_pair((#[trigger] pairs[i]).0, pairs[i].1);
        assert(pairs.contains(pairs[i]));
    }
    if left <= right && pairs.contains(p) {
        let i = choose|i: int| 0 <= i < pairs.len() && pairs[i] == p;
        assert(p == canonical_pair(pairs[i].0, pairs[i].1));
    }
    if left <= right && pairs.contains((right, left)) {
        let i = choose|i: int| 0 <= i < pairs.len() && pairs[i] == (right, left);
        assert(p == canonical_pair(pairs[i].0, pairs[i].1));
    }
}

/// Puts the smaller identifier first.
pub fn canonical_missing_edge(left: u64, right: u64) -> (pair: (u64, u64))
    ensures
        pair == canonical_pair(left, right),
        pair.0 <= pair.1,
        pair == (left, right) || pair == (right, left),
{
    if left <= right {
        (left, right)
    } else {
        (right, left)
    }
}

/// The identifiers of the standard transactions, in ascending order.
pub(crate) fn list_standard_ids(transactions: &[Transaction]) -> (ids: Vec<u64>)
    ensures
        ascending(ids@),
        ids@.to_set() == standard_ids(payloads(transactions@)),
{
    let mut set: BTreeSet<u64> = BTreeSet::new();
    let ghost all = payloads(transactions@);
    for i in 0..transactions.len()
        invariant
            all == payloads(transactions@),
            forall|id: u64| #[trigger]
                set@.contains(id) <==> exists|j: int|
                    0 <= j < i && standard_id(#[trigger] all[j]) == Some(id),
    {
        let ghost before = set@;
        assert(all[i as int] == transactions@[i as int]@);
        if let Some((id, _)) = parse_standard_transaction(&transactions[i]) {
            set.insert(id);
        }
        assert forall|id: u64| #[trigger] set@.contains(id) <==> exists|j: int|
            0 <= j < i + 1 && standard_id(#[trigger] all[j]) == Some(id) by {
            assert(set@.contains(id) <==> before.contains(id) || standard_id(all[i as int]) == Some(
                id,
            ));
        }
    }
    assert(set@ =~= standard_ids(all));
    list_ids(&set)
}

impl BatchMakerControl {
    /// Tells of a globally ordered batch.
    pub fn observe_global_batch(batch: &Batch) -> (control: Self)
        ensures
            control@ matches ControlView::ObserveGlobalGraph(info) && describes(info, batch@),
    {
        let tx_ids = list_standard_ids(&batch.transactions);
        let mut pairs: BTreeSet<(u64, u64)> = BTreeSet::new();
        let ghost all = batch.missing_edges@;
        for i in 0..batch.missing_edges.len()
            invariant
                all == batch.missing_edges@,
                pairs@ == canonical_pairs(all.take(i as int)),
        {
            let ghost before = pairs@;
            let (left, right) = batch.missing_edges[i];
            let pair = canonical_missing_edge(left, right);
            pairs.insert(pair);
            assert forall|p: (u64, u64)| pairs@.contains(p) <==> canonical_pairs(
                all.take(i + 1),
            ).contains(p) by {
                let fewer = all.take(i as int);
                let more = all.take(i + 1);
                if canonical_pairs(fewer).contains(p) {
                    let k = choose|k: int|
                        0 <= k < fewer.len() && p == canonical_pair(
                            (#[trigger] fewer[k]).0,
                            fewer[k].1,
                        );
                    assert(more[k] == fewer[k]);
                }
                assert(more[i as int] == (left, right));
                if canonical_pairs(more).contains(p) {
                    let k = choose|k: int|
                        0 <= k < more.len() && p == canonical_pair((#[trigger] more[k]).0, more[k].1);
                    if k < i {
                        assert(fewer[k] == more[k]);
                    }
                }
            }
            assert(pairs@ =~= canonical_pairs(all.take(i + 1)));
        }
        assert(all.take(all.len() as int) =~= all);
        BatchMakerControl::ObserveGlobalGraph(
            GlobalGraphInfo {
                sequence: batch.sequence,
                tx_ids,
                missing_edges: list_pairs(&pairs),
            },
        )
    }

    /// Tells of executed transactions.
    pub fn mark_processed(tx_ids: Vec<u64>) -> (control: Self)
        ensures
            control@ matches ControlView::MarkProcessed(ids) && ascending(ids) && ids.to_set()
                == tx_ids@.to_set(),
    {
        let set = set_of_ids(&tx_ids);
        BatchMakerControl::MarkProcessed(list_ids(&set))
    }
}

} // verus!
