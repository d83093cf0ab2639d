//! The batch maker: it stages client transactions, seals them into batches with their
//! local order, and keeps track of what became of the sealed ones.

use std::collections::{BTreeMap, BTreeSet, VecDeque};
use tokio::sync::mpsc::Receiver;
use vstd::prelude::*;
use vstd::std_specs::btree::spec_btree_keys_iter;
use vstd::std_specs::iter::IteratorSpec;
use crate::batch::{payloads, Batch, BatchView, PublicKey};
use crate::channels::{taken_from, try_receive};
use crate::control::{
    canonical_missing_edge, canonical_pair, BatchMakerControl, ControlView, GlobalGraphInfo,
};
use crate::maker_model::{
    is_sealed_batch, least, lemma_count_fits, lemma_dependency_rests_on, lemma_drains_keep, lemma_drains_take,
    lemma_drop_dead, lemma_drop_processed, lemma_enqueue, lemma_observe_pairs, lemma_pairs_with,
    lemma_process, lemma_process_each, lemma_prune_frontiers, lemma_prune_pairs, lemma_record,
    lemma_record_all, lemma_remove_pair, lemma_seal, lemma_stage, lemma_standard_list, lemma_tidy,
    pairs_with, partners_of, queue_of, stale_of, standard_list, write_all, writers_of,
    writes_before, Arrival, CrossBatchDependency, MakerView, TxState, MAX_MISSING_PAIRS,
    MAX_MISSING_PAIR_AGE, MAX_PROCESSED_TX_IDS,
};
use crate::ordered::{lemma_push_contains, list_ids, list_pairs};
use crate::transaction::{parse_standard_transaction, standard_ids, Transaction};

verus! {

/// How much control work may follow on a transaction.
pub const INGRESS_CONTROL_WORK_BUDGET: usize = 1;

/// How much control work may be done while there is nothing to seal.
pub const IDLE_CONTROL_WORK_BUDGET: usize = 4_096;

/// How much control work may go before a batch is sealed.
pub const PRE_SEAL_CONTROL_WORK_BUDGET: usize = 8;

/// An observed global graph whose missing pairs are still to be handled.
pub struct PendingObservationControl {
    pub sequence: u64,
    pub missing_edges: VecDeque<(u64, u64)>,
}

/// Executed transactions that are still to be handled.
pub struct PendingProcessedControl {
    pub tx_ids: VecDeque<u64>,
}

impl View for PendingObservationControl {
    type V = (u64, Seq<(u64, u64)>);

    open spec fn view(&self) -> (u64, Seq<(u64, u64)>) {
        (self.sequence, self.missing_edges@)
    }
}

impl View for PendingProcessedControl {
    type V = Seq<u64>;

    open spec fn view(&self) -> Seq<u64> {
        self.tx_ids@
    }
}

/// The contents of a map of queues.
pub open spec fn queue_views(queues: Map<u8, VecDeque<u64>>) -> Map<u8, Seq<u64>> {
    queues.map_values(|queue: VecDeque<u64>| queue@)
}

/// The contents of a map of sets.
pub open spec fn partner_views(partners: Map<u64, BTreeSet<u64>>) -> Map<u64, Set<u64>> {
    partners.map_values(|set: BTreeSet<u64>| set@)
}

/// Assembles client transactions into batches.
pub struct BatchMaker {
    pub name: PublicKey,
    /// The size in bytes from which on the open batch is sealed.
    pub batch_size: usize,
    pub rx_observation_control: Receiver<BatchMakerControl>,
    pub rx_processed_control: Receiver<BatchMakerControl>,
    pub current_batch: Vec<Transaction>,
    pub current_batch_standard_ids: BTreeSet<u64>,
    pub current_batch_size: usize,
    pub last_writer: BTreeMap<u8, u64>,
    pub known_transactions: BTreeMap<u64, u8>,
    pub unprocessed_by_key: BTreeMap<u8, VecDeque<u64>>,
    pub stale_unprocessed_by_key: BTreeMap<u8, usize>,
    pub frontier_by_key: BTreeMap<u8, VecDeque<u64>>,
    pub frontier_tx_ids: BTreeSet<u64>,
    pub processed_tx_ids: BTreeSet<u64>,
    pub processed_tx_fifo: VecDeque<u64>,
    pub missing_partners_by_tx: BTreeMap<u64, BTreeSet<u64>>,
    pub missing_pairs: BTreeSet<(u64, u64)>,
    pub missing_pair_fifo: VecDeque<(u64, (u64, u64))>,
    pub pending_observation_controls: VecDeque<PendingObservationControl>,
    pub pending_processed_controls: VecDeque<PendingProcessedControl>,
    pub next_sequence: u64,
}

impl View for BatchMaker {
    type V = MakerView;

    open spec fn view(&self) -> MakerView {
        MakerView {
            name: self.name,
            batch_size: self.batch_size,
            current: payloads(self.current_batch@),
            staged: self.current_batch_standard_ids@,
            size: self.current_batch_size as nat,
            last_writer: self.last_writer@,
            known: self.known_transactions@,
            unprocessed: queue_views(self.unprocessed_by_key@),
            stale: self.stale_unprocessed_by_key@,
            frontier: queue_views(self.frontier_by_key@),
            frontier_ids: self.frontier_tx_ids@,
            processed: self.processed_tx_ids@,
            processed_fifo: self.processed_tx_fifo@,
            partners: partner_views(self.missing_partners_by_tx@),
            pairs: self.missing_pairs@,
            pair_fifo: self.missing_pair_fifo@,
            pending_observations: self.pending_observation_controls@.map_values(
                |pending: PendingObservationControl| pending@,
            ),
            pending_processed: self.pending_processed_controls@.map_values(
                |pending: PendingProcessedControl| pending@,
            ),
            taken_observed: taken_from(self.rx_observation_control),
            taken_processed: taken_from(self.rx_processed_control),
            next_sequence: self.next_sequence,
        }
    }
}

/// Appends to the queue of a key.
fn push_to_queue(queues: &mut BTreeMap<u8, VecDeque<u64>>, key: u8, id: u64)
    ensures
        queue_views(final(queues)@) == queue_views(old(queues)@).insert(
            key,
            queue_of(queue_views(old(queues)@), key).push(id),
        ),
{
    let ghost before = queue_views(queues@);
    let mut queue: VecDeque<u64> = match queues.remove(&key) {
        Some(queue) => queue,
        None => VecDeque::new(),
    };
    assert(queue@ =~= queue_of(before, key));
    queue.push_back(id);
    queues.insert(key, queue);
    assert(queue_views(queues@) =~= before.insert(key, queue_of(before, key).push(id)));
}

impl BatchMaker {
    /// What is known of a transaction.
    pub fn tx_state(&self, tx_id: u64) -> (state: TxState)
        ensures
            state == self@.tx_state(tx_id),
    {
        if self.processed_tx_ids.contains(&tx_id) {
            TxState::Processed
        } else if self.known_transactions.contains_key(&tx_id) {
            TxState::Unprocessed
        } else if self.current_batch_standard_ids.contains(&tx_id) {
            TxState::InBatch
        } else {
            TxState::Unseen
        }
    }

    /// Whether the order of the transaction with another is open.
    fn has_missing_partners(&self, tx_id: u64) -> (has: bool)
        ensures
            has == self@.has_missing_partners(tx_id),
    {
        match self.missing_partners_by_tx.get(&tx_id) {
            Some(partners) => {
                proof {
                    crate::ordered::lemma_ids_finite(partners);
                    assert(self@.partners[tx_id] == partners@);
                    if partners@.len() == 0 {
                        assert(partners@ =~= Set::<u64>::empty());
                    }
                }
                !partners.is_empty()
            },
            None => false,
        }
    }

    fn enqueue_frontier_tx(&mut self, tx_id: u64)
        ensures
            final(self)@ == old(self)@.enqueue_frontier(tx_id),
    {
        if !self.known_transactions.contains_key(&tx_id) {
            return ;
        }
        let state_key = *self.known_transactions.get(&tx_id).unwrap();
        if !self.frontier_tx_ids.contains(&tx_id) {
            self.frontier_tx_ids.insert(tx_id);
            push_to_queue(&mut self.frontier_by_key, state_key, tx_id);
        }
    }

    fn record_missing_partner(&mut self, tx_id: u64, partner: u64)
        ensures
            final(self)@ == old(self)@.record_partner(tx_id, partner),
    {
        let ghost before = self@;
        if self.tx_state(tx_id) != TxState::Unprocessed {
            return ;
        }
        let mut partners: BTreeSet<u64> = match self.missing_partners_by_tx.remove(&tx_id) {
            Some(partners) => partners,
            None => BTreeSet::new(),
        };
        assert(partners@ =~= partners_of(before.partners, tx_id));
        let added = !partners.contains(&partner);
        partners.insert(partner);
        self.missing_partners_by_tx.insert(tx_id, partners);
        assert(self@.partners =~= before.partners.insert(
            tx_id,
            partners_of(before.partners, tx_id).insert(partner),
        ));
        if added {
            self.enqueue_frontier_tx(tx_id);
        }
    }

    fn remove_missing_partner(&mut self, tx_id: u64, partner: u64)
        ensures
            final(self)@ == old(self)@.remove_partner(tx_id, partner),
    {
        let ghost before = self@;
        if let Some(found) = self.missing_partners_by_tx.remove(&tx_id) {
            let mut partners: BTreeSet<u64> = found;
            assert(partners@ == before.partners[tx_id]);
            partners.remove(&partner);
            let ghost left = partners@;
            if !partners.is_empty() {
                assert(left != Set::<u64>::empty());
                self.missing_partners_by_tx.insert(tx_id, partners);
                assert(self@.partners =~= before.partners.insert(tx_id, left));
            } else {
                proof {
                    crate::ordered::lemma_ids_finite(&partners);
                    assert(left =~= Set::<u64>::empty());
                }
                assert(self@.partners =~= before.partners.remove(tx_id));
            }
        } else {
            assert(self@.partners =~= before.partners);
        }
    }

    fn remove_missing_pair(&mut self, pair: (u64, u64))
        ensures
            final(self)@ == old(self)@.remove_pair(pair),
    {
        if !self.missing_pairs.contains(&pair) {
            return ;
        }
        self.missing_pairs.remove(&pair);
        self.remove_missing_partner(pair.0, pair.1);
        self.remove_missing_partner(pair.1, pair.0);
    }

    fn prune_missing_pairs(&mut self, current_sequence: u64)
        ensures
            final(self)@ == old(self)@.prune_pairs(current_sequence),
    {
        let ghost goal = self@.prune_pairs(current_sequence);
        loop
            invariant
                goal == self@.prune_pairs(current_sequence),
            ensures
                goal == self@,
            decreases self@.pair_fifo.len(),
        {
            if self.missing_pair_fifo.len() == 0 {
                break ;
            }
            let (sequence, pair) = self.missing_pair_fifo[0];
            let too_many = self.missing_pairs.len() > MAX_MISSING_PAIRS;
            let too_old = current_sequence.saturating_sub(sequence) > MAX_MISSING_PAIR_AGE;
            if !too_many && !too_old {
                break ;
            }
            self.missing_pair_fifo.pop_front();
            self.remove_missing_pair(pair);
        }
    }

    fn insert_missing_pair(&mut self, sequence: u64, pair: (u64, u64))
        ensures
            final(self)@ == old(self)@.insert_pair(sequence, pair),
    {
        if pair.0 == pair.1 || self.missing_pairs.contains(&pair) {
            return ;
        }
        self.missing_pairs.insert(pair);
        self.missing_pair_fifo.push_back((sequence, pair));
        self.record_missing_partner(pair.0, pair.1);
        self.record_missing_partner(pair.1, pair.0);
        self.prune_missing_pairs(sequence);
    }

    fn handle_observed_missing_pair(&mut self, sequence: u64, pair: (u64, u64))
        ensures
            final(self)@ == old(self)@.observe_pair(sequence, pair),
    {
        let (left, right) = pair;
        let left_state = self.tx_state(left);
        let right_state = self.tx_state(right);
        if left_state == TxState::Processed || right_state == TxState::Processed {
            return ;
        }
        if left_state != TxState::Unprocessed && right_state != TxState::Unprocessed {
            return ;
        }
        self.insert_missing_pair(sequence, (left, right));
    }

    /// Handles an observed global graph at once.
    pub fn observe_global_graph(&mut self, info: GlobalGraphInfo)
        ensures
            final(self)@ == old(self)@.handle(ControlView::ObserveGlobalGraph(info@)),
            old(self)@.valid() ==> final(self)@.valid(),
    {
        let ghost before = self@;
        self.prune_missing_pairs(info.sequence);
        let ghost start = self@;
        proof {
            if before.valid() {
                lemma_prune_pairs(before, info.sequence);
                lemma_observe_pairs(start, info.sequence, info.missing_edges@);
            }
        }
        let ghost pairs = info.missing_edges@;
        for i in 0..info.missing_edges.len()
            invariant
                pairs == info.missing_edges@,
                self@ == start.observe_pairs(info.sequence, pairs.take(i as int)),
        {
            self.handle_observed_missing_pair(info.sequence, info.missing_edges[i]);
            assert(pairs.take(i + 1).drop_last() =~= pairs.take(i as int));
        }
        assert(pairs.take(pairs.len() as int) =~= pairs);
    }

    fn process_pending_observation_control(
        &mut self,
        pending: &mut PendingObservationControl,
        work_budget: usize,
    ) -> (spent: usize)
        ensures
            spent == least(work_budget as nat, old(pending)@.1.len()),
            final(pending)@ == (old(pending)@.0, old(pending)@.1.skip(spent as int)),
            final(self)@ == old(self)@.observe_pairs(
                old(pending)@.0,
                old(pending)@.1.take(spent as int),
            ),
    {
        let ghost start = self@;
        let ghost pairs = pending@.1;
        let mut spent: usize = 0;
        assert(pairs.skip(0) =~= pairs);
        while spent < work_budget && pending.missing_edges.len() > 0
            invariant
                spent <= work_budget,
                spent <= pairs.len(),
                pending.sequence == old(pending)@.0,
                pending.missing_edges@ == pairs.skip(spent as int),
                self@ == start.observe_pairs(pending.sequence, pairs.take(spent as int)),
            decreases work_budget - spent,
        {
            let pair = pending.missing_edges.pop_front().unwrap();
            assert(pair == pairs[spent as int]);
            assert(pairs.skip(spent as int).drop_first() =~= pairs.skip(spent + 1));
            self.handle_observed_missing_pair(pending.sequence, pair);
            assert(pairs.take(spent + 1).drop_last() =~= pairs.take(spent as int));
            spent += 1;
        }
        spent
    }

    fn prune_frontier_queue(&mut self, state_key: u8)
        ensures
            final(self)@ == old(self)@.prune_frontier(state_key),
    {
        let ghost before = self@;
        let mut queue: VecDeque<u64> = match self.frontier_by_key.remove(&state_key) {
            Some(queue) => queue,
            None => {
                assert(self@.frontier =~= before.frontier);
                return ;
            },
        };
        let ghost full = queue@;
        let ghost mut dropped: int = 0;
        assert(self@.frontier =~= before.frontier.remove(state_key));
        assert(full.take(0).to_set() =~= Set::empty());
        assert(self@.frontier_ids =~= before.frontier_ids.difference(full.take(0).to_set()));
        assert(full.skip(0) =~= full);
        loop
            invariant
                before.frontier.contains_key(state_key),
                full == before.frontier[state_key],
                0 <= dropped <= full.len(),
                queue@ == full.skip(dropped),
                before.drop_dead(full) == before.drop_dead(queue@),
                self@ == (MakerView {
                    frontier: before.frontier.remove(state_key),
                    frontier_ids: before.frontier_ids.difference(full.take(dropped).to_set()),
                    ..before
                }),
            ensures
                before.drop_dead(full) == queue@,
            decreases queue@.len(),
        {
            if queue.len() == 0 {
                break ;
            }
            let tx_id = queue[0];
            if self.known_transactions.contains_key(&tx_id) && self.has_missing_partners(tx_id) {
                assert(before.is_live(queue@[0]));
                break ;
            }
            assert(!before.is_live(queue@[0]));
            queue.pop_front();
            self.frontier_tx_ids.remove(&tx_id);
            proof {
                let seen = full.take(dropped);
                assert(full.take(dropped + 1) =~= seen.push(tx_id));
                seen.lemma_push_to_set_commute(tx_id);
                assert(self@.frontier_ids =~= before.frontier_ids.difference(
                    full.take(dropped + 1).to_set(),
                ));
                assert(full.skip(dropped).drop_first() =~= full.skip(dropped + 1));
                dropped = dropped + 1;
            }
        }
        assert(queue@.len() == full.len() - dropped);
        if queue.len() > 0 {
            let ghost rest = self@.frontier;
            let ghost left = queue@;
            self.frontier_by_key.insert(state_key, queue);
            assert(self@.frontier =~= rest.insert(state_key, left));
            assert(self@.frontier =~= before.frontier.insert(state_key, before.drop_dead(full)));
        }
    }

    /// The first transaction of a frontier that still counts; those before it are dropped.
    pub fn unresolved_frontier_for_key(&mut self, state_key: u8) -> (frontier: Option<u64>)
        ensures
            final(self)@ == old(self)@.prune_frontier(state_key),
            frontier == old(self)@.unresolved_frontier(state_key),
            old(self)@.valid() ==> final(self)@.valid(),
    {
        self.prune_frontier_queue(state_key);
        match self.frontier_by_key.get(&state_key) {
            Some(queue) => {
                assert(self@.frontier[state_key] == queue@);
                assert(self@.frontier.contains_key(state_key));
                if queue.len() > 0 {
                    Some(queue[0])
                } else {
                    None
                }
            },
            None => {
                assert(!self@.frontier.contains_key(state_key));
                None
            },
        }
    }

    fn cross_batch_dependency_for_key(&mut self, state_key: u8) -> (dependency: CrossBatchDependency)
        ensures
            final(self)@ == old(self)@.prune_frontier(state_key),
            dependency == old(self)@.dependency(state_key),
    {
        let unresolved_frontier = self.unresolved_frontier_for_key(state_key);
        let last_writer = match self.last_writer.get(&state_key) {
            Some(last_writer) => *last_writer,
            None => {
                return CrossBatchDependency {
                    edge_predecessor: None,
                    missing_predecessor: unresolved_frontier,
                };
            },
        };
        if self.tx_state(last_writer) == TxState::Unprocessed && self.has_missing_partners(
            last_writer,
        ) {
            CrossBatchDependency {
                edge_predecessor: None,
                missing_predecessor: Some(last_writer),
            }
        } else {
            let missing_predecessor = match unresolved_frontier {
                Some(frontier) => if frontier != last_writer {
                    Some(frontier)
                } else {
                    None
                },
                None => None,
            };
            CrossBatchDependency { edge_predecessor: Some(last_writer), missing_predecessor }
        }
    }

    fn remember_processed(&mut self, tx_id: u64)
        requires
            old(self)@.valid_processed(),
        ensures
            final(self)@ == old(self)@.remember(tx_id),
    {
        let ghost before = self@;
        if self.processed_tx_ids.contains(&tx_id) {
            return ;
        }
        self.processed_tx_ids.insert(tx_id);
        self.processed_tx_fifo.push_back(tx_id);
        if self.processed_tx_fifo.len() > MAX_PROCESSED_TX_IDS {
            let evicted = self.processed_tx_fifo.pop_front().unwrap();
            self.processed_tx_ids.remove(&evicted);
        }
    }

    fn remove_all_missing_pairs_for(&mut self, tx_id: u64)
        ensures
            final(self)@ == old(self)@.remove_pairs_of(tx_id),
    {
        let ghost before = self@;
        let ghost goal = before.remove_pairs_of(tx_id);
        let partners = match self.missing_partners_by_tx.remove(&tx_id) {
            Some(partners) => partners,
            None => {
                assert(self@.partners =~= before.partners);
                assert(goal.pairs =~= before.pairs) by {
                    assert forall|p: (u64, u64)| !pairs_with(
                        tx_id,
                        partners_of(before.partners, tx_id),
                    ).contains(p) by {}
                }
                assert(goal.partners =~= before.partners);
                return ;
            },
        };
        let listed = list_ids(&partners);
        assert(partners@ == before.partners[tx_id]);
        assert(self@.partners =~= before.partners.remove(tx_id));
        for i in 0..listed.len()
            invariant
                before.partners.contains_key(tx_id),
                listed@.to_set() == before.partners[tx_id],
                self@ == (MakerView { pairs: self@.pairs, partners: self@.partners, ..before }),
                self@.pairs == before.pairs.difference(
                    pairs_with(tx_id, listed@.take(i as int).to_set()),
                ),
                forall|y: u64| #[trigger]
                    self@.partners.contains_key(y) <==> before.partners.contains_key(y) && y
                        != tx_id && !(listed@.take(i as int).contains(y) && before.pairs.contains(
                        canonical_pair(tx_id, y),
                    ) && before.partners[y].remove(tx_id) == Set::<u64>::empty()),
                forall|y: u64|
                    self@.partners.contains_key(y) ==> #[trigger] self@.partners[y] == if listed@.take(
                        i as int,
                    ).contains(y) && before.pairs.contains(canonical_pair(tx_id, y)) {
                        before.partners[y].remove(tx_id)
                    } else {
                        before.partners[y]
                    },
        {
            let partner = listed[i];
            let ghost seen = listed@.take(i as int);
            let ghost at = self@;
            let pair = canonical_missing_edge(tx_id, partner);
            proof {
                lemma_push_contains(seen, partner);
                assert(listed@.take(i + 1) =~= seen.push(partner));
            }
            proof {
                lemma_unlink(self@, tx_id, partner);
                lemma_remove_pair(self@, pair);
            }
            self.remove_missing_pair(pair);
            proof {
                seen.lemma_push_to_set_commute(partner);
                lemma_pairs_with(tx_id, seen.to_set(), partner);
                assert(self@.pairs =~= before.pairs.difference(
                    pairs_with(tx_id, seen.push(partner).to_set()),
                ));
                assert(at.pairs.contains(pair) <==> before.pairs.contains(pair)
                    && !seen.to_set().contains(partner));
                assert(!at.partners.contains_key(tx_id));
            }
        }
        proof {
            assert(listed@.take(listed@.len() as int) =~= listed@);
            assert forall|y: u64| #[trigger] listed@.contains(y) <==> partners_of(
                before.partners,
                tx_id,
            ).contains(y) by {
                assert(listed@.to_set().contains(y) <==> listed@.contains(y));
            }
            assert(self@.partners =~= goal.partners);
        }
    }
}

impl BatchMaker {
    fn mark_processed_one(&mut self, tx_id: u64, touched_keys: &mut BTreeSet<u8>)
        requires
            old(self)@.valid(),
        ensures
            final(self)@ == old(self)@.process_one(tx_id),
            final(touched_keys)@ == if old(self)@.known.contains_key(tx_id) {
                old(touched_keys)@.insert(old(self)@.known[tx_id])
            } else {
                old(touched_keys)@
            },
    {
        let ghost before = self@;
        self.remember_processed(tx_id);
        if let Some(state_key) = self.known_transactions.remove(&tx_id) {
            touched_keys.insert(state_key);
            proof {
                lemma_count_fits(before, tx_id);
                self.lemma_queue_fits(state_key);
            }
            let count = match self.stale_unprocessed_by_key.get(&state_key) {
                Some(count) => *count,
                None => 0,
            };
            self.stale_unprocessed_by_key.insert(state_key, count + 1);
            assert(self@.known =~= before.known.remove(tx_id));
        } else {
            assert(self@.known =~= before.known);
        }
        self.remove_all_missing_pairs_for(tx_id);
    }

    /// Queues that are held in memory have a length.
    proof fn lemma_queue_fits(&self, key: u8)
        ensures
            queue_of(self@.unprocessed, key).len() <= usize::MAX,
    {
        if self.unprocessed_by_key@.contains_key(key) {
            let queue = self.unprocessed_by_key@[key];
            assert(queue@.len() == queue.len());
        }
    }

    /// Drops executed transactions from the head of a queue.
    fn prune_unprocessed_prefix(&mut self, state_key: u8)
        requires
            old(self)@.valid_queues(),
        ensures
            final(self)@ == old(self)@.tidy(set![state_key]),
    {
        let ghost before = self@;
        let ghost goal = before.tidy(set![state_key]);
        let mut queue: VecDeque<u64> = match self.unprocessed_by_key.remove(&state_key) {
            Some(queue) => queue,
            None => {
                assert(self@.unprocessed =~= before.unprocessed);
                assert(goal.unprocessed =~= before.unprocessed);
                assert(goal.stale =~= before.stale);
                return ;
            },
        };
        let ghost full = queue@;
        assert(self@.unprocessed =~= before.unprocessed.remove(state_key));
        assert(full.skip(0) =~= full);
        assert(full.len() == queue.len());
        let mut removed: usize = 0;
        loop
            invariant
                before.unprocessed.contains_key(state_key),
                full == before.unprocessed[state_key],
                full.len() <= usize::MAX,
                removed <= full.len(),
                queue@ == full.skip(removed as int),
                before.drop_processed(full) == before.drop_processed(queue@),
                self@ == (MakerView {
                    unprocessed: before.unprocessed.remove(state_key),
                    ..before
                }),
            ensures
                before.drop_processed(full) == queue@,
            decreases queue@.len(),
        {
            if queue.len() == 0 {
                break ;
            }
            let tx_id = queue[0];
            if self.known_transactions.contains_key(&tx_id) {
                break ;
            }
            queue.pop_front();
            assert(full.skip(removed as int).drop_first() =~= full.skip(removed + 1));
            removed += 1;
        }
        let ghost left = queue@;
        assert(left == before.tidy_queue(state_key));
        if removed > 0 {
            self.reduce_stale_unprocessed_count(state_key, removed);
        }
        if queue.len() > 0 {
            let ghost rest = self@.unprocessed;
            self.unprocessed_by_key.insert(state_key, queue);
            assert(self@.unprocessed =~= rest.insert(state_key, left));
        } else {
            self.stale_unprocessed_by_key.remove(&state_key);
        }
        assert(self@.unprocessed =~= goal.unprocessed);
        assert(self@.stale =~= goal.stale);
    }

    fn reduce_stale_unprocessed_count(&mut self, state_key: u8, removed: usize)
        ensures
            final(self)@ == (MakerView {
                stale: if !old(self)@.stale.contains_key(state_key) {
                    old(self)@.stale
                } else if old(self)@.stale[state_key] <= removed {
                    old(self)@.stale.remove(state_key)
                } else {
                    old(self)@.stale.insert(
                        state_key,
                        (old(self)@.stale[state_key] - removed) as usize,
                    )
                },
                ..old(self)@
            }),
    {
        let stale = match self.stale_unprocessed_by_key.get(&state_key) {
            Some(stale) => *stale,
            None => {
                return ;
            },
        };
        if stale <= removed {
            self.stale_unprocessed_by_key.remove(&state_key);
        } else {
            self.stale_unprocessed_by_key.insert(state_key, stale - removed);
        }
    }

    /// Tidies up the queues of the states that were touched.
    fn prune_empty_unprocessed_keys(&mut self, touched_keys: BTreeSet<u8>)
        requires
            old(self)@.valid_queues(),
        ensures
            final(self)@ == old(self)@.tidy(touched_keys@),
    {
        let ghost before = self@;
        let ghost all = spec_btree_keys_iter(&touched_keys).remaining().unref();
        assert(before.tidy(all.take(0).to_set()).unprocessed =~= before.unprocessed);
        assert(before.tidy(all.take(0).to_set()).stale =~= before.stale);
        for key in it: touched_keys.iter()
            invariant
                all == it.seq().unref(),
                all.to_set() == touched_keys@,
                all.no_duplicates(),
                self@ == before.tidy(all.take(it.index()).to_set()),
                self@.valid_queues(),
        {
            let ghost seen = all.take(it.index());
            let ghost at = self@;
            proof {
                seen.lemma_push_to_set_commute(*key);
                assert(all.take(it.index() + 1) =~= seen.push(*key));
                assert(!seen.contains(*key)) by {
                    if seen.contains(*key) {
                        let k = choose|k: int| 0 <= k < seen.len() && seen[k] == *key;
                        assert(all[k] == all[it.index()]);
                    }
                }
                assert forall|k: u8| (#[trigger] queue_of(at.unprocessed, k)).len() <= usize::MAX by {
                    self.lemma_queue_fits(k);
                }
                lemma_tidy(at, set![*key]);
                lemma_tidy_more(before, seen.to_set(), *key);
            }
            self.prune_unprocessed_prefix(*key);
        }
        assert(all.take(all.len() as int) =~= all);
    }

    /// Handles executed transactions at once.
    pub fn mark_processed(&mut self, tx_ids: Vec<u64>)
        requires
            old(self)@.valid(),
        ensures
            final(self)@ == old(self)@.process(tx_ids@),
            final(self)@.valid(),
    {
        let ghost before = self@;
        let mut touched_keys: BTreeSet<u8> = BTreeSet::new();
        proof {
            self.lemma_queues_fit();
            lemma_process(before, tx_ids@);
            assert(before.touched_keys(tx_ids@.take(0)) =~= Set::empty());
        }
        for i in 0..tx_ids.len()
            invariant
                before.valid(),
                forall|k: u8| (#[trigger] queue_of(before.unprocessed, k)).len() <= usize::MAX,
                self@ == before.process_each(tx_ids@.take(i as int)),
                touched_keys@ == before.touched_keys(tx_ids@.take(i as int)),
        {
            let ghost seen = tx_ids@.take(i as int);
            let ghost more = tx_ids@.take(i + 1);
            proof {
                lemma_process_each(before, seen);
                assert(more.drop_last() =~= seen);
                lemma_touched_more(before, seen, tx_ids@[i as int]);
                assert(more =~= seen.push(tx_ids@[i as int]));
            }
            self.mark_processed_one(tx_ids[i], &mut touched_keys);
        }
        proof {
            assert(tx_ids@.take(tx_ids@.len() as int) =~= tx_ids@);
            lemma_process_each(before, tx_ids@);
        }
        self.prune_empty_unprocessed_keys(touched_keys);
    }

    proof fn lemma_queues_fit(&self)
        ensures
            forall|k: u8| (#[trigger] queue_of(self@.unprocessed, k)).len() <= usize::MAX,
    {
        assert forall|k: u8| (#[trigger] queue_of(self@.unprocessed, k)).len() <= usize::MAX by {
            self.lemma_queue_fits(k);
        }
    }

    /// Handles a control message at once.
    pub fn handle_control(&mut self, control: BatchMakerControl)
        requires
            old(self)@.valid(),
        ensures
            final(self)@ == old(self)@.handle(control@),
            final(self)@.valid(),
    {
        match control {
            BatchMakerControl::ObserveGlobalGraph(info) => {
                proof {
                    lemma_prune_pairs(self@, info.sequence);
                    lemma_observe_pairs(
                        self@.prune_pairs(info.sequence),
                        info.sequence,
                        info.missing_edges@,
                    );
                }
                self.observe_global_graph(info)
            },
            BatchMakerControl::MarkProcessed(tx_ids) => self.mark_processed(tx_ids),
        }
    }

    /// Queues a control message.
    pub fn enqueue_control(&mut self, control: BatchMakerControl)
        requires
            old(self)@.valid(),
        ensures
            final(self)@ == old(self)@.enqueue(control@),
            final(self)@.valid(),
    {
        let ghost before = self@;
        proof {
            lemma_enqueue(before, control@);
        }
        match control {
            BatchMakerControl::ObserveGlobalGraph(info) => {
                self.prune_missing_pairs(info.sequence);
                if info.missing_edges.len() > 0 {
                    let ghost queued = self@.pending_observations;
                    let missing_edges = queue_of_pairs(&info.missing_edges);
                    self.pending_observation_controls.push_back(
                        PendingObservationControl { sequence: info.sequence, missing_edges },
                    );
                    assert(self@.pending_observations =~= queued.push(
                        (info.sequence, info.missing_edges@),
                    ));
                }
            },
            BatchMakerControl::MarkProcessed(tx_ids) => {
                if tx_ids.len() > 0 {
                    let ghost queued = self@.pending_processed;
                    let ids = queue_of_ids(&tx_ids);
                    self.pending_processed_controls.push_back(
                        PendingProcessedControl { tx_ids: ids },
                    );
                    assert(self@.pending_processed =~= queued.push(tx_ids@));
                }
            },
        }
    }

    fn process_pending_processed_control(
        &mut self,
        pending: &mut PendingProcessedControl,
        work_budget: usize,
    ) -> (spent: usize)
        requires
            old(self)@.valid(),
        ensures
            spent == least(work_budget as nat, old(pending)@.len()),
            final(pending)@ == old(pending)@.skip(spent as int),
            final(self)@ == old(self)@.process(old(pending)@.take(spent as int)),
            final(self)@.valid(),
    {
        let ghost before = self@;
        let ghost ids = pending@;
        let mut spent: usize = 0;
        let mut touched_keys: BTreeSet<u8> = BTreeSet::new();
        proof {
            self.lemma_queues_fit();
            assert(before.touched_keys(ids.take(0)) =~= Set::empty());
            assert(ids.skip(0) =~= ids);
        }
        while spent < work_budget && pending.tx_ids.len() > 0
            invariant
                spent <= work_budget,
                spent <= ids.len(),
                pending.tx_ids@ == ids.skip(spent as int),
                before.valid(),
                forall|k: u8| (#[trigger] queue_of(before.unprocessed, k)).len() <= usize::MAX,
                self@ == before.process_each(ids.take(spent as int)),
                touched_keys@ == before.touched_keys(ids.take(spent as int)),
            decreases work_budget - spent,
        {
            let ghost seen = ids.take(spent as int);
            let ghost more = ids.take(spent + 1);
            let tx_id = pending.tx_ids.pop_front().unwrap();
            proof {
                assert(tx_id == ids[spent as int]);
                assert(ids.skip(spent as int).drop_first() =~= ids.skip(spent + 1));
                lemma_process_each(before, seen);
                assert(more.drop_last() =~= seen);
                lemma_touched_more(before, seen, tx_id);
                assert(more =~= seen.push(tx_id));
            }
            self.mark_processed_one(tx_id, &mut touched_keys);
            spent += 1;
        }
        proof {
            lemma_process_each(before, ids.take(spent as int));
            lemma_process(before, ids.take(spent as int));
        }
        self.prune_empty_unprocessed_keys(touched_keys);
        spent
    }
}

/// The state of a batch maker that has seen nothing.
pub open spec fn fresh_maker(
    name: PublicKey,
    batch_size: usize,
    taken_observed: Seq<Option<ControlView>>,
    taken_processed: Seq<Option<ControlView>>,
) -> MakerView {
    MakerView {
        name,
        batch_size,
        current: Seq::empty(),
        staged: Set::empty(),
        size: 0,
        last_writer: Map::empty(),
        known: Map::empty(),
        unprocessed: Map::empty(),
        stale: Map::empty(),
        frontier: Map::empty(),
        frontier_ids: Set::empty(),
        processed: Set::empty(),
        processed_fifo: Seq::empty(),
        partners: Map::empty(),
        pairs: Set::empty(),
        pair_fifo: Seq::empty(),
        pending_observations: Seq::empty(),
        pending_processed: Seq::empty(),
        taken_observed,
        taken_processed,
        next_sequence: 0,
    }
}

/// The end of working off the queues of `start` within `budget`, whatever comes in meanwhile. What
/// was taken out of the channels on the way is what the looks into them gave, in their order, and
/// each of these queues what it gives.
pub open spec fn may_drain_to(start: MakerView, budget: nat, end: MakerView) -> bool {
    exists|arrivals: Seq<(Arrival, Arrival, Arrival)>| #[trigger]
        start.drains_to(budget, arrivals, end) && end.took(start, start.looks(budget, arrivals))
}

impl BatchMaker {
    /// A batch maker that has seen nothing.
    pub fn new(
        name: PublicKey,
        batch_size: usize,
        rx_observation_control: Receiver<BatchMakerControl>,
        rx_processed_control: Receiver<BatchMakerControl>,
    ) -> (maker: Self)
        ensures
            maker@ == fresh_maker(
                name,
                batch_size,
                taken_from(rx_observation_control),
                taken_from(rx_processed_control),
            ),
            maker@.valid(),
    {
        let maker = BatchMaker {
            name,
            batch_size,
            rx_observation_control,
            rx_processed_control,
            current_batch: Vec::new(),
            current_batch_standard_ids: BTreeSet::new(),
            current_batch_size: 0,
            last_writer: BTreeMap::new(),
            known_transactions: BTreeMap::new(),
            unprocessed_by_key: BTreeMap::new(),
            stale_unprocessed_by_key: BTreeMap::new(),
            frontier_by_key: BTreeMap::new(),
            frontier_tx_ids: BTreeSet::new(),
            processed_tx_ids: BTreeSet::new(),
            processed_tx_fifo: VecDeque::new(),
            missing_partners_by_tx: BTreeMap::new(),
            missing_pairs: BTreeSet::new(),
            missing_pair_fifo: VecDeque::new(),
            pending_observation_controls: VecDeque::new(),
            pending_processed_controls: VecDeque::new(),
            next_sequence: 0,
        };
        proof {
            let view = maker@;
            assert(view.current =~= Seq::empty());
            assert(view.unprocessed =~= Map::empty());
            assert(view.frontier =~= Map::empty());
            assert(view.partners =~= Map::empty());
            assert(view.pending_observations =~= Seq::empty());
            assert(view.pending_processed =~= Seq::empty());
            assert(view.staged =~= standard_ids(view.current));
            assert(view.processed_fifo.to_set() =~= view.processed);
            assert forall|key: u8|
                stale_of(view.stale, key) + (#[trigger] writers_of(view.known, key)).len()
                    <= queue_of(view.unprocessed, key).len() by {
                assert(writers_of(view.known, key) =~= Set::empty());
            }
        }
        maker
    }

    /// Stages a transaction, unless it is a duplicate.
    pub fn accept_transaction(&mut self, transaction: Transaction) -> (accepted: bool)
        requires
            old(self)@.valid(),
            old(self)@.size + transaction@.len() <= usize::MAX,
        ensures
            final(self)@.valid(),
            accepted == !old(self)@.is_duplicate(transaction@),
            final(self)@ == if accepted {
                old(self)@.stage(transaction@)
            } else {
                old(self)@
            },
    {
        let ghost before = self@;
        let ghost tx = transaction@;
        if let Some((tx_id, _)) = parse_standard_transaction(&transaction) {
            if self.current_batch_standard_ids.contains(&tx_id)
                || self.known_transactions.contains_key(&tx_id) {
                return false;
            }
            self.current_batch_standard_ids.insert(tx_id);
        }
        self.current_batch_size = self.current_batch_size + transaction.len();
        let ghost batch_before = self.current_batch@;
        self.current_batch.push(transaction);
        proof {
            assert(payloads(self.current_batch@) =~= payloads(batch_before).push(tx));
            lemma_stage(before, tx);
        }
        true
    }

    /// Records a sealed transaction.
    pub fn record_unprocessed(&mut self, tx_id: u64, state_key: u8)
        ensures
            final(self)@ == old(self)@.record(tx_id, state_key),
            old(self)@.valid() && !old(self)@.staged.contains(tx_id) && (
            old(self)@.known.contains_key(tx_id) ==> old(self)@.known[tx_id] == state_key)
                ==> final(self)@.valid(),
    {
        proof {
            if self@.valid() && !self@.staged.contains(tx_id) && (self@.known.contains_key(tx_id)
                ==> self@.known[tx_id] == state_key) {
                lemma_record(self@, tx_id, state_key);
            }
        }
        if self.known_transactions.insert(tx_id, state_key).is_none() {
            push_to_queue(&mut self.unprocessed_by_key, state_key, tx_id);
        }
    }

    /// Queues the next control message that has arrived, executed transactions first.
    fn try_receive_control(&mut self) -> (received: bool)
        requires
            old(self)@.valid(),
        ensures
            exists|arrival: Arrival|
                (arrival !is Nothing <==> received) && #[trigger] old(self)@.receive(arrival)
                    == final(self)@,
            final(self)@.valid(),
    {
        let ghost before = self@;
        if let Some(control) = try_receive(&mut self.rx_processed_control) {
            let ghost arrival = Arrival::Processed(control@);
            self.enqueue_control(control);
            assert(before.receive(arrival) == self@);
            return true;
        }
        if let Some(control) = try_receive(&mut self.rx_observation_control) {
            let ghost arrival = Arrival::Observed(control@);
            assert(self@ == MakerView {
                taken_processed: before.taken_processed.push(None),
                taken_observed: before.taken_observed.push(Some(control@)),
                ..before
            });
            self.enqueue_control(control);
            assert(before.receive(arrival) == self@);
            return true;
        }
        assert(before.receive(Arrival::Nothing) == self@);
        false
    }

    /// One step of working off the queues; it takes no work only where nothing is left.
    fn drain_step(&mut self, work_budget: usize) -> (spent: usize)
        requires
            old(self)@.valid(),
            work_budget > 0,
        ensures
            final(self)@.valid(),
            spent <= work_budget,
            exists|arrivals: (Arrival, Arrival, Arrival)|
                #[trigger] old(self)@.drain_step(work_budget as nat, arrivals) == (
                    final(self)@,
                    spent as nat,
                ),
    {
        let ghost start = self@;
        let ghost budget = work_budget as nat;
        let ghost mut first = Arrival::Nothing;
        let ghost mut second = Arrival::Nothing;
        let ghost mut third = Arrival::Nothing;
        if self.pending_processed_controls.len() == 0 && self.pending_observation_controls.len()
            == 0 {
            let received = self.try_receive_control();
            proof {
                first = choose|arrival: Arrival|
                    (arrival !is Nothing <==> received) && #[trigger] start.receive(arrival) == self@;
            }
            if !received {
                assert(start.drain_step(budget, (first, second, third)) == (self@, 0nat));
                return 0;
            }
        }
        let ghost mid = self@;
        if self.pending_processed_controls.len() == 0 {
            let received = self.try_receive_control();
            proof {
                second = choose|arrival: Arrival|
                    (arrival !is Nothing <==> received) && #[trigger] mid.receive(arrival) == self@;
            }
        }
        let ghost after = self@;
        if self.pending_processed_controls.len() > 0 {
            let spent = self.work_processed(work_budget);
            assert(start.drain_step(budget, (first, second, third)) == (self@, spent as nat));
            return spent;
        }
        if self.pending_observation_controls.len() == 0 {
            let received = self.try_receive_control();
            proof {
                third = choose|arrival: Arrival|
                    (arrival !is Nothing <==> received) && #[trigger] after.receive(arrival) == self@;
            }
        }
        if self.pending_observation_controls.len() == 0 {
            assert(start.drain_step(budget, (first, second, third)) == (self@, 0nat));
            return 0;
        }
        let spent = self.work_observed(work_budget);
        assert(start.drain_step(budget, (first, second, third)) == (self@, spent as nat));
        spent
    }

    /// Handles executed transactions at the head of the queue.
    fn work_processed(&mut self, work_budget: usize) -> (spent: usize)
        requires
            old(self)@.valid(),
            old(self)@.pending_processed.len() > 0,
        ensures
            final(self)@ == old(self)@.work_processed(work_budget as nat),
            final(self)@.valid(),
            spent == least(work_budget as nat, old(self)@.pending_processed[0].len()),
    {
        let ghost before = self@;
        let mut pending = self.pending_processed_controls.pop_front().unwrap();
        let ghost popped = self@;
        let ghost front = pending@;
        proof {
            assert(front == before.pending_processed[0]);
            assert(popped.pending_processed =~= before.pending_processed.drop_first());
            assert(popped == (MakerView {
                pending_processed: before.pending_processed.drop_first(),
                ..before
            }));
            assert(popped.valid());
            self.lemma_queues_fit();
        }
        let spent = self.process_pending_processed_control(&mut pending, work_budget);
        proof {
            lemma_process(popped, front.take(spent as int));
        }
        let ghost worked = self@;
        if pending.tx_ids.len() > 0 {
            let ghost left = pending@;
            self.pending_processed_controls.push_front(pending);
            assert(self@.pending_processed =~= seq![left] + worked.pending_processed);
        }
        spent
    }

    /// Handles observed pairs at the head of the queue.
    fn work_observed(&mut self, work_budget: usize) -> (spent: usize)
        requires
            old(self)@.valid(),
            old(self)@.pending_observations.len() > 0,
        ensures
            final(self)@ == old(self)@.work_observed(work_budget as nat),
            final(self)@.valid(),
            spent == least(work_budget as nat, old(self)@.pending_observations[0].1.len()),
    {
        let ghost before = self@;
        let mut pending = self.pending_observation_controls.pop_front().unwrap();
        let ghost popped = self@;
        let ghost front = pending@;
        proof {
            assert(front == before.pending_observations[0]);
            assert(popped.pending_observations =~= before.pending_observations.drop_first());
            assert(popped == (MakerView {
                pending_observations: before.pending_observations.drop_first(),
                ..before
            }));
            assert(popped.valid());
        }
        let spent = self.process_pending_observation_control(&mut pending, work_budget);
        let ghost worked = self@;
        proof {
            lemma_observe_pairs(popped, front.0, front.1.take(spent as int));
        }
        if pending.missing_edges.len() > 0 {
            let ghost left = pending@;
            self.pending_observation_controls.push_front(pending);
            assert(self@.pending_observations =~= seq![left] + worked.pending_observations);
        }
        spent
    }

    /// Works off queued control messages and those that arrive meanwhile: executed transactions
    /// first, one unit of work for each transaction or pair, up to `work_budget` units.
    pub fn drain_control_backlog(&mut self, work_budget: usize)
        requires
            old(self)@.valid(),
        ensures
            final(self)@.valid(),
            may_drain_to(old(self)@, work_budget as nat, final(self)@),
    {
        let ghost start = self@;
        let ghost budget = work_budget as nat;
        let mut remaining_work: usize = work_budget;
        assert(drains_on(start, budget, Seq::empty(), self@, remaining_work as nat)) by {
            reveal(drains_on);
            lemma_drains_on_start(start, budget);
        }
        let ghost mut trace: Seq<(Arrival, Arrival, Arrival)> = Seq::empty();
        while remaining_work > 0
            invariant
                self@.valid(),
                start == old(self)@,
                budget == work_budget,
                drains_on(start, budget, trace, self@, remaining_work as nat),
            decreases remaining_work,
        {
            let ghost at = self@;
            let spent = self.drain_step(remaining_work);
            let ghost arrivals = choose|
                arrivals: (Arrival, Arrival, Arrival),
            | #[trigger]
                at.drain_step(remaining_work as nat, arrivals) == (self@, spent as nat);
            if spent == 0 {
                proof {
                    lemma_drain_stop(
                        start,
                        budget,
                        trace,
                        at,
                        remaining_work as nat,
                        arrivals,
                        self@,
                    );
                }
                return ;
            }
            proof {
                lemma_drain_on(
                    start,
                    budget,
                    trace,
                    at,
                    remaining_work as nat,
                    arrivals,
                    self@,
                    spent as nat,
                );
                trace = trace.push(arrivals);
            }
            remaining_work = remaining_work - spent;
        }
        proof {
            reveal(drains_on);
            let nothing: Seq<(Arrival, Arrival, Arrival)> = Seq::empty();
            assert(self@.drains_to(0, nothing, self@));
            assert(start.drains_to(budget, trace + nothing, self@));
            lemma_drains_take(start, budget, trace + nothing, self@);
        }
    }
}

/// The standard transactions, each with the state that it writes.
fn list_standard(transactions: &Vec<Transaction>) -> (list: Vec<(u64, u8)>)
    ensures
        list@ == standard_list(payloads(transactions@)),
{
    let mut list: Vec<(u64, u8)> = Vec::new();
    let ghost all = payloads(transactions@);
    for i in 0..transactions.len()
        invariant
            all == payloads(transactions@),
            list@ == standard_list(all.take(i as int)),
    {
        assert(all.take(i + 1).drop_last() =~= all.take(i as int));
        assert(all[i as int] == transactions@[i as int]@);
        if let Some(entry) = parse_standard_transaction(&transactions[i]) {
            list.push(entry);
        }
    }
    assert(all.take(all.len() as int) =~= all);
    list
}

/// The transactions of a batch that were looked at so far, by the state that they write.
spec fn writers_so_far(writers: Map<u8, Vec<u64>>, list: Seq<(u64, u8)>, n: int) -> bool {
    forall|id: u64, key: u8|
        (exists|i: int| 0 <= i < n && #[trigger] list[i] == (id, key)) <==> #[trigger] is_writer(
            writers,
            id,
            key,
        )
}

spec fn is_writer(writers: Map<u8, Vec<u64>>, id: u64, key: u8) -> bool {
    writers.contains_key(key) && writers[key]@.contains(id)
}

/// Adds a writer of a state.
fn add_writer(
    writers: &mut BTreeMap<u8, Vec<u64>>,
    id: u64,
    key: u8,
    Ghost(list): Ghost<Seq<(u64, u8)>>,
    Ghost(n): Ghost<int>,
)
    requires
        writers_so_far(old(writers)@, list, n),
        0 <= n < list.len(),
        list[n] == (id, key),
    ensures
        writers_so_far(final(writers)@, list, n + 1),
{
    let ghost before = writers@;
    let mut ids: Vec<u64> = match writers.remove(&key) {
        Some(ids) => ids,
        None => Vec::new(),
    };
    let ghost known = ids@;
    ids.push(id);
    writers.insert(key, ids);
    proof {
        lemma_push_contains(known, id);
        assert forall|x: u64, k: u8|
            (exists|i: int| 0 <= i < n + 1 && #[trigger] list[i] == (x, k)) <==> #[trigger] is_writer(
            writers@,
            x,
            k,
        ) by {
            assert(is_writer(writers@, x, k) <==> is_writer(before, x, k) || (x, k) == (id, key));
            assert(is_writer(before, x, k) <==> exists|i: int|
                0 <= i < n && #[trigger] list[i] == (x, k));
        }
    }
}

/// The edges of the first `n` transactions of a batch were collected.
spec fn edges_so_far(
    view: MakerView,
    list: Seq<(u64, u8)>,
    n: int,
    edges: Set<(u64, u64)>,
) -> bool {
    forall|e: (u64, u64)| #[trigger]
        edges.contains(e) <==> exists|j: int|
            0 <= j < n && e.1 == (#[trigger] list[j]).0 && view.follows(list, j, e.0)
}

/// The missing pairs of the first `n` transactions of a batch were collected.
spec fn missing_so_far(
    view: MakerView,
    list: Seq<(u64, u8)>,
    n: int,
    missing: Set<(u64, u64)>,
) -> bool {
    forall|e: (u64, u64)| #[trigger]
        missing.contains(e) <==> exists|j: int|
            0 <= j < n && e.1 == (#[trigger] list[j]).0 && e.0 != e.1 && view.dependency(
                list[j].1,
            ).missing_predecessor == Some(e.0)
}

/// Adds the edges of the transaction at `n`.
fn add_edges(
    edges: &mut BTreeSet<(u64, u64)>,
    writers: &BTreeMap<u8, Vec<u64>>,
    entry: (u64, u8),
    edge_predecessor: Option<u64>,
    Ghost(view): Ghost<MakerView>,
    Ghost(list): Ghost<Seq<(u64, u8)>>,
    Ghost(n): Ghost<int>,
)
    requires
        0 <= n < list.len(),
        list[n] == entry,
        edge_predecessor == view.dependency(entry.1).edge_predecessor,
        writers_so_far(writers@, list, n),
        edges_so_far(view, list, n, old(edges)@),
    ensures
        edges_so_far(view, list, n + 1, final(edges)@),
{
    let ghost before = edges@;
    let (id, key) = entry;
    if let Some(previous) = edge_predecessor {
        if previous != id {
            edges.insert((previous, id));
        }
    }
    let ghost crossed = edges@;
    let ghost mut inner: Seq<u64> = Seq::empty();
    if let Some(prior) = writers.get(&key) {
        proof {
            inner = prior@;
        }
        for i in 0..prior.len()
            invariant
                forall|e: (u64, u64)| #[trigger]
                    edges@.contains(e) <==> crossed.contains(e) || (e.1 == id && e.0 != id
                        && prior@.take(i as int).contains(e.0)),
        {
            let ghost seen = prior@.take(i as int);
            let ghost at = edges@;
            proof {
                lemma_push_contains(seen, prior@[i as int]);
                assert(prior@.take(i + 1) =~= seen.push(prior@[i as int]));
            }
            if prior[i] != id {
                edges.insert((prior[i], id));
            }
            assert forall|e: (u64, u64)| #[trigger] edges@.contains(e) <==> crossed.contains(e) || (
            e.1 == id && e.0 != id && seen.push(prior@[i as int]).contains(e.0)) by {
                assert(edges@.contains(e) <==> at.contains(e) || (prior@[i as int] != id && e == (
                    prior@[i as int],
                    id,
                )));
            }
        }
        assert(prior@.take(prior@.len() as int) =~= prior@);
    }
    proof {
        assert forall|e: (u64, u64)| #[trigger] edges@.contains(e) <==> exists|j: int|
            0 <= j < n + 1 && e.1 == (#[trigger] list[j]).0 && view.follows(list, j, e.0) by {
            assert(before.contains(e) <==> exists|j: int|
                0 <= j < n && e.1 == (#[trigger] list[j]).0 && view.follows(list, j, e.0));
            assert(edges@.contains(e) <==> crossed.contains(e) || (e.1 == id && e.0 != id
                && inner.contains(e.0)));
            assert(crossed.contains(e) <==> before.contains(e) || (e.1 == id && e.0 != id
                && edge_predecessor == Some(e.0)));
            assert(is_writer(writers@, e.0, key) <==> writes_before(list, n, e.0)) by {
                assert((exists|i: int| 0 <= i < n && #[trigger] list[i] == (e.0, key)) <==> is_writer(
                    writers@,
                    e.0,
                    key,
                ));
            }
            assert(inner.contains(e.0) <==> is_writer(writers@, e.0, key));
            assert(edges@.contains(e) <==> before.contains(e) || (e.1 == list[n].0 && view.follows(
                list,
                n,
                e.0,
            )));
        }
    }
}

impl BatchMaker {
    /// Collects the order of the standard transactions of a batch: its edges and missing pairs.
    fn order_batch(&mut self, list: &Vec<(u64, u8)>) -> (order: (
        BTreeSet<(u64, u64)>,
        BTreeSet<(u64, u64)>,
    ))
        ensures
            final(self)@ == old(self)@.prune_frontiers(list@),
            order.0@ == old(self)@.batch_edges(list@),
            order.1@ == old(self)@.batch_missing(list@),
    {
        let ghost start = self@;
        let mut edges: BTreeSet<(u64, u64)> = BTreeSet::new();
        let mut missing: BTreeSet<(u64, u64)> = BTreeSet::new();
        let mut writers: BTreeMap<u8, Vec<u64>> = BTreeMap::new();
        for j in 0..list.len()
            invariant
                self@ == start.prune_frontiers(list@.take(j as int)),
                writers_so_far(writers@, list@, j as int),
                edges_so_far(start, list@, j as int, edges@),
                missing_so_far(start, list@, j as int, missing@),
        {
            let (id, key) = list[j];
            let ghost seen = list@.take(j as int);
            let ghost missing_before = missing@;
            proof {
                lemma_prune_frontiers(start, seen, key);
                assert(list@.take(j + 1).drop_last() =~= seen);
            }
            let dependency = self.cross_batch_dependency_for_key(key);
            add_edges(
                &mut edges,
                &writers,
                list[j],
                dependency.edge_predecessor,
                Ghost(start),
                Ghost(list@),
                Ghost(j as int),
            );
            if let Some(frontier) = dependency.missing_predecessor {
                if frontier != id {
                    missing.insert((frontier, id));
                }
            }
            assert(missing_so_far(start, list@, j + 1, missing@)) by {
                assert forall|e: (u64, u64)| #[trigger] missing@.contains(e) <==> exists|k: int|
                    0 <= k < j + 1 && e.1 == (#[trigger] list@[k]).0 && e.0 != e.1
                        && start.dependency(list@[k].1).missing_predecessor == Some(e.0) by {
                    assert(missing_before.contains(e) <==> exists|k: int|
                        0 <= k < j && e.1 == (#[trigger] list@[k]).0 && e.0 != e.1
                            && start.dependency(list@[k].1).missing_predecessor == Some(e.0));
                    assert(list@[j as int] == (id, key));
                }
            }
            add_writer(&mut writers, id, key, Ghost(list@), Ghost(j as int));
        }
        proof {
            assert(list@.take(list@.len() as int) =~= list@);
            assert(edges@ =~= start.batch_edges(list@));
            assert(missing@ =~= start.batch_missing(list@));
        }
        (edges, missing)
    }

    /// Seals the open batch.
    pub fn seal(&mut self) -> (batch: Batch)
        requires
            old(self)@.valid(),
            old(self)@.next_sequence < u64::MAX,
        ensures
            final(self)@ == old(self)@.seal(),
            final(self)@.valid(),
            is_sealed_batch(old(self)@, batch@),
    {
        let ghost before = self@;
        let mut transactions: Vec<Transaction> = Vec::new();
        std::mem::swap(&mut transactions, &mut self.current_batch);
        self.current_batch_size = 0;
        self.current_batch_standard_ids.clear();
        let name = self.name;
        let sequence = self.next_sequence;
        let list = list_standard(&transactions);
        let ghost cleared = self@;
        proof {
            assert(cleared.current =~= Seq::empty());
            assert(list@ == standard_list(before.current));
            assert forall|key: u8| #[trigger] cleared.dependency(key) == before.dependency(key) by {
                lemma_dependency_rests_on(cleared, before, key);
            }
        }
        let (edge_set, missing_edge_set) = self.order_batch(&list);
        proof {
            assert forall|j: int, id: u64|
                0 <= j < list@.len() implies #[trigger] cleared.follows(list@, j, id)
                == before.follows(list@, j, id) by {
                assert(cleared.dependency(list@[j].1) == before.dependency(list@[j].1));
            }
            assert(cleared.batch_edges(list@) =~= before.batch_edges(list@));
            assert(cleared.batch_missing(list@) =~= before.batch_missing(list@));
            lemma_prune_frontiers(cleared, list@, 0);
            lemma_prune_frontiers(before, list@, 0);
            lemma_prune_same(cleared, before, list@);
        }
        let ghost pruned = self@;
        for i in 0..list.len()
            invariant
                self@ == (MakerView {
                    last_writer: write_all(pruned.last_writer, list@.take(i as int)),
                    ..pruned
                }),
        {
            assert(list@.take(i + 1).drop_last() =~= list@.take(i as int));
            self.last_writer.insert(list[i].1, list[i].0);
        }
        assert(list@.take(list@.len() as int) =~= list@);
        self.next_sequence = self.next_sequence + 1;
        let ghost ready = self@;
        proof {
            lemma_standard_list(before.current);
            lemma_seal(before);
            assert(ready.staged =~= standard_ids(ready.current));
            assert(ready.valid());
            assert forall|i: int| 0 <= i < list@.len() implies !ready.known.contains_key(
                (#[trigger] list@[i]).0,
            ) by {
                assert(before.staged.contains(list@[i].0));
                assert(!before.known.dom().contains(list@[i].0));
            }
        }
        for i in 0..list.len()
            invariant
                ready.valid(),
                ready.staged == Set::<u64>::empty(),
                forall|i: int|
                    0 <= i < list@.len() ==> !ready.known.contains_key((#[trigger] list@[i]).0),
                forall|i: int, j: int|
                    0 <= i < j < list@.len() ==> (#[trigger] list@[i]).0 != (
                    #[trigger] list@[j]).0,
                self@ == ready.record_all(list@.take(i as int)),
        {
            let ghost seen = list@.take(i as int);
            proof {
                assert forall|a: int, b: int| 0 <= a < b < seen.len() implies (
                #[trigger] seen[a]).0 != (#[trigger] seen[b]).0 by {
                    assert(list@[a].0 != list@[b].0);
                }
                assert forall|a: int| 0 <= a < seen.len() implies !ready.known.contains_key(
                    (#[trigger] seen[a]).0,
                ) by {
                    assert(!ready.known.contains_key(list@[a].0));
                }
                lemma_record_all(ready, seen);
                assert(!self@.known.contains_key(list@[i as int].0)) by {
                    if exists|a: int| 0 <= a < seen.len() && (#[trigger] seen[a]).0
                        == list@[i as int].0 {
                        let a = choose|a: int|
                            0 <= a < seen.len() && (#[trigger] seen[a]).0 == list@[i as int].0;
                        assert(list@[a].0 != list@[i as int].0);
                    }
                }
                assert(list@.take(i + 1).drop_last() =~= seen);
            }
            self.record_unprocessed(list[i].0, list[i].1);
        }
        assert(list@.take(list@.len() as int) =~= list@);
        Batch {
            author: name,
            sequence,
            transactions,
            edges: list_pairs(&edge_set),
            missing_edges: list_pairs(&missing_edge_set),
        }
    }
}

/// The end of a step of `start` that seals: some control work within the budget that goes
/// before a seal, then the seal of `batch`.
pub open spec fn may_seal_to(start: MakerView, batch: BatchView, end: MakerView) -> bool {
    exists|drained: MakerView| #[trigger]
        may_drain_to(start, PRE_SEAL_CONTROL_WORK_BUDGET as nat, drained) && is_sealed_batch(
            drained,
            batch,
        ) && end == drained.seal()
}

impl BatchMaker {
    /// Takes in a client transaction. If that fills the open batch, the batch is sealed.
    pub fn ingest(&mut self, transaction: Transaction) -> (sealed: Option<Batch>)
        requires
            old(self)@.valid(),
            old(self)@.size + transaction@.len() <= usize::MAX,
            old(self)@.next_sequence < u64::MAX,
        ensures
            final(self)@.valid(),
            ({
                let accepted = !old(self)@.is_duplicate(transaction@);
                let staged = if accepted {
                    old(self)@.stage(transaction@)
                } else {
                    old(self)@
                };
                &&& sealed is Some <==> accepted && staged.size >= staged.batch_size
                &&& match sealed {
                    Some(batch) => may_seal_to(staged, batch@, final(self)@),
                    None => may_drain_to(
                        staged,
                        INGRESS_CONTROL_WORK_BUDGET as nat,
                        final(self)@,
                    ),
                }
            }),
    {
        let accepted = self.accept_transaction(transaction);
        let ghost staged = self@;
        if accepted && self.current_batch_size >= self.batch_size {
            self.drain_control_backlog(PRE_SEAL_CONTROL_WORK_BUDGET);
            let ghost drained = self@;
            proof {
                lemma_may_drain_keeps(staged, PRE_SEAL_CONTROL_WORK_BUDGET as nat, drained);
            }
            let batch = self.seal();
            assert(may_seal_to(staged, batch@, self@));
            Some(batch)
        } else {
            self.drain_control_backlog(INGRESS_CONTROL_WORK_BUDGET);
            None
        }
    }

    /// Seals the open batch when it has been open for long enough, if there is anything in it.
    pub fn on_timer(&mut self) -> (sealed: Option<Batch>)
        requires
            old(self)@.valid(),
            old(self)@.next_sequence < u64::MAX,
        ensures
            final(self)@.valid(),
            sealed is Some <==> old(self)@.current.len() > 0,
            match sealed {
                Some(batch) => may_seal_to(old(self)@, batch@, final(self)@),
                None => may_drain_to(old(self)@, IDLE_CONTROL_WORK_BUDGET as nat, final(self)@),
            },
    {
        let ghost start = self@;
        assert(start.current.len() == self.current_batch@.len());
        if self.current_batch.len() > 0 {
            self.drain_control_backlog(PRE_SEAL_CONTROL_WORK_BUDGET);
            let ghost drained = self@;
            proof {
                lemma_may_drain_keeps(start, PRE_SEAL_CONTROL_WORK_BUDGET as nat, drained);
            }
            let batch = self.seal();
            assert(may_seal_to(start, batch@, self@));
            Some(batch)
        } else {
            self.drain_control_backlog(IDLE_CONTROL_WORK_BUDGET);
            None
        }
    }
}

/// Control work leaves the open batch and the number of the next one alone.
pub proof fn lemma_may_drain_keeps(start: MakerView, budget: nat, end: MakerView)
    requires
        may_drain_to(start, budget, end),
    ensures
        end.keeps_batch(start),
{
    let arrivals = choose|
        arrivals: Seq<(Arrival, Arrival, Arrival)>,
    | #[trigger]
        start.drains_to(budget, arrivals, end);
    lemma_drains_keep(start, budget, arrivals, end);
}

/// Pruning frontiers does the same in two states that agree on what it rests on.
proof fn lemma_prune_same(a: MakerView, b: MakerView, list: Seq<(u64, u8)>)
    requires
        a.known == b.known,
        a.partners == b.partners,
        a.frontier == b.frontier,
        a.frontier_ids == b.frontier_ids,
    ensures
        a.prune_frontiers(list).frontier == b.prune_frontiers(list).frontier,
        a.prune_frontiers(list).frontier_ids == b.prune_frontiers(list).frontier_ids,
        a.prune_frontiers(list).known == a.known,
        b.prune_frontiers(list).known == b.known,
        a.prune_frontiers(list).partners == a.partners,
        b.prune_frontiers(list).partners == b.partners,
    decreases list.len(),
{
    if list.len() > 0 {
        let fewer = list.drop_last();
        let key = list.last().1;
        lemma_prune_same(a, b, fewer);
        let c = a.prune_frontiers(fewer);
        let d = b.prune_frontiers(fewer);
        if c.frontier.contains_key(key) {
            lemma_drop_dead(c, d, c.frontier[key]);
        }
    }
}

/// After the steps of `trace`, `view` is reached with the work `remaining` left of `budget`: what
/// `view` drains to from there, `start` drains to.
#[verifier::opaque]
spec fn drains_on(
    start: MakerView,
    budget: nat,
    trace: Seq<(Arrival, Arrival, Arrival)>,
    view: MakerView,
    remaining: nat,
) -> bool {
    forall|
        rest: Seq<(Arrival, Arrival, Arrival)>,
        end: MakerView,
    | #[trigger]
        view.drains_to(remaining, rest, end) ==> start.drains_to(budget, trace + rest, end)
}

proof fn lemma_drains_on_start(start: MakerView, budget: nat)
    ensures
        drains_on(start, budget, Seq::empty(), start, budget),
{
    reveal(drains_on);
    let trace: Seq<(Arrival, Arrival, Arrival)> = Seq::empty();
    assert forall|
        rest: Seq<(Arrival, Arrival, Arrival)>,
        end: MakerView,
    | #[trigger] start.drains_to(budget, rest, end) implies start.drains_to(
        budget,
        trace + rest,
        end,
    ) by {
        assert(trace + rest =~= rest);
    }
}

/// A step without work ends the draining.
proof fn lemma_drain_stop(
    start: MakerView,
    budget: nat,
    trace: Seq<(Arrival, Arrival, Arrival)>,
    view: MakerView,
    remaining: nat,
    arrivals: (Arrival, Arrival, Arrival),
    end: MakerView,
)
    requires
        remaining > 0,
        view.drain_step(remaining, arrivals) == (end, 0nat),
        drains_on(start, budget, trace, view, remaining),
    ensures
        may_drain_to(start, budget, end),
{
    reveal(drains_on);
    let last = seq![arrivals];
    assert(last[0] == arrivals);
    assert(view.drains_to(remaining, last, end));
    assert(start.drains_to(budget, trace + last, end));
    lemma_drains_take(start, budget, trace + last, end);
}

/// One more step of the draining.
proof fn lemma_drain_on(
    start: MakerView,
    budget: nat,
    trace: Seq<(Arrival, Arrival, Arrival)>,
    view: MakerView,
    remaining: nat,
    arrivals: (Arrival, Arrival, Arrival),
    next: MakerView,
    spent: nat,
)
    requires
        0 < spent <= remaining,
        view.drain_step(remaining, arrivals) == (next, spent),
        drains_on(start, budget, trace, view, remaining),
    ensures
        drains_on(start, budget, trace.push(arrivals), next, (remaining - spent) as nat),
{
    reveal(drains_on);
    assert forall|
        rest: Seq<(Arrival, Arrival, Arrival)>,
        end: MakerView,
    | #[trigger] next.drains_to((remaining - spent) as nat, rest, end) implies start.drains_to(
        budget,
        trace.push(arrivals) + rest,
        end,
    ) by {
        let longer = seq![arrivals] + rest;
        assert(longer[0] == arrivals);
        assert(longer.drop_first() =~= rest);
        assert(view.drains_to(remaining, longer, end));
        assert(trace + longer =~= trace.push(arrivals) + rest);
    }
}

/// A queue of the same pairs.
fn queue_of_pairs(pairs: &Vec<(u64, u64)>) -> (queue: VecDeque<(u64, u64)>)
    ensures
        queue@ == pairs@,
{
    let mut queue: VecDeque<(u64, u64)> = VecDeque::new();
    for i in 0..pairs.len()
        invariant
            queue@ == pairs@.take(i as int),
    {
        queue.push_back(pairs[i]);
        assert(pairs@.take(i + 1) =~= pairs@.take(i as int).push(pairs@[i as int]));
    }
    assert(pairs@.take(pairs@.len() as int) =~= pairs@);
    queue
}

/// A queue of the same identifiers.
fn queue_of_ids(ids: &Vec<u64>) -> (queue: VecDeque<u64>)
    ensures
        queue@ == ids@,
{
    let mut queue: VecDeque<u64> = VecDeque::new();
    for i in 0..ids.len()
        invariant
            queue@ == ids@.take(i as int),
    {
        queue.push_back(ids[i]);
        assert(ids@.take(i + 1) =~= ids@.take(i as int).push(ids@[i as int]));
    }
    assert(ids@.take(ids@.len() as int) =~= ids@);
    queue
}

/// Tidying up the queue of one more state.
proof fn lemma_tidy_more(view: MakerView, keys: Set<u8>, key: u8)
    requires
        !keys.contains(key),
    ensures
        view.tidy(keys).tidy(set![key]) == view.tidy(keys.insert(key)),
{
    let first = view.tidy(keys);
    let twice = first.tidy(set![key]);
    let once = view.tidy(keys.insert(key));
    lemma_drop_processed(view, first, queue_of(view.unprocessed, key));
    assert(queue_of(first.unprocessed, key) == queue_of(view.unprocessed, key));
    assert(stale_of(first.stale, key) == stale_of(view.stale, key));
    assert(twice.unprocessed =~= once.unprocessed);
    assert(twice.stale =~= once.stale);
}

/// The states that one more executed transaction touches.
proof fn lemma_touched_more(view: MakerView, seen: Seq<u64>, id: u64)
    requires
        view.process_each(seen).known == view.known.remove_keys(seen.to_set()),
    ensures
        view.touched_keys(seen.push(id)) == if view.process_each(seen).known.contains_key(id) {
            view.touched_keys(seen).insert(view.process_each(seen).known[id])
        } else {
            view.touched_keys(seen)
        },
{
    let more = seen.push(id);
    let now = view.process_each(seen).known;
    let goal = if now.contains_key(id) {
        view.touched_keys(seen).insert(now[id])
    } else {
        view.touched_keys(seen)
    };
    assert forall|key: u8| view.touched_keys(more).contains(key) <==> goal.contains(key) by {
        if view.touched_keys(seen).contains(key) {
            let i = choose|i: int|
                0 <= i < seen.len() && view.known.contains_key(#[trigger] seen[i])
                    && view.known[seen[i]] == key;
            assert(more[i] == seen[i]);
        }
        assert(more[seen.len() as int] == id);
        if view.touched_keys(more).contains(key) {
            let i = choose|i: int|
                0 <= i < more.len() && view.known.contains_key(#[trigger] more[i])
                    && view.known[more[i]] == key;
            if i < seen.len() {
                assert(seen[i] == more[i]);
            } else if !now.contains_key(id) {
                assert(seen.to_set().contains(id));
                assert(seen.contains(id));
                let k = choose|k: int| 0 <= k < seen.len() && seen[k] == id;
                assert(view.known.contains_key(seen[k]));
            }
        }
    }
    assert(view.touched_keys(more) =~= goal);
}

/// Removing the pair of `id` and `y`, where `id` has no partners recorded: only the
/// partners of `y` change.
proof fn lemma_unlink(view: MakerView, id: u64, y: u64)
    requires
        !view.partners.contains_key(id),
    ensures
        ({
            let pair = canonical_pair(id, y);
            let next = view.remove_pair(pair);
            &&& next == (MakerView { pairs: view.pairs.remove(pair), partners: next.partners, ..view })
            &&& next.partners == if view.pairs.contains(pair) {
                view.remove_partner(y, id).partners
            } else {
                view.partners
            }
        }),
{
    let pair = canonical_pair(id, y);
    assert(view.remove_pair(pair).pairs =~= view.pairs.remove(pair));
}

} // verus!
