//! The state of a batch maker, and what its operations make of it.

use vstd::prelude::*;
use crate::batch::{BatchView, PublicKey};
use crate::control::{canonical_pair, ControlView};
use crate::ordered::ascending_pairs;
use crate::transaction::{standard_id, standard_id_and_key, standard_ids, total_size};

verus! {

/// How many processed transactions are remembered.
pub const MAX_PROCESSED_TX_IDS: usize = 65_536;

/// How many missing pairs are remembered.
pub const MAX_MISSING_PAIRS: usize = 4_096;

/// For how many rounds a missing pair is remembered.
pub const MAX_MISSING_PAIR_AGE: u64 = 128;

/// What a batch maker knows of a transaction.
#[derive(Clone, Copy, PartialEq, Eq, Structural, Debug)]
pub enum TxState {
    /// It was executed.
    Processed,
    /// It was sealed into a batch, and not yet executed.
    Unprocessed,
    /// It is staged in the open batch.
    InBatch,
    /// Nothing is known of it.
    Unseen,
}

/// What a transaction of the next batch follows on: a transaction that surely comes before
/// it, and one whose order with it is open.
#[derive(Clone, Copy, PartialEq, Eq, Structural, Debug)]
pub struct CrossBatchDependency {
    pub edge_predecessor: Option<u64>,
    pub missing_predecessor: Option<u64>,
}

/// The state of a batch maker.
pub struct MakerView {
    pub name: PublicKey,
    /// The size in bytes from which on the open batch is sealed.
    pub batch_size: usize,
    /// The transactions of the open batch.
    pub current: Seq<Seq<u8>>,
    /// The standard transactions among them.
    pub staged: Set<u64>,
    /// Their size in bytes.
    pub size: nat,
    /// The last sealed transaction that writes each state.
    pub last_writer: Map<u8, u64>,
    /// The sealed transactions that were not executed yet, with the state that each writes.
    pub known: Map<u64, u8>,
    /// For each state, the sealed transactions that write it, some of them executed by now.
    pub unprocessed: Map<u8, Seq<u64>>,
    /// For each state, a count of the executed ones among them.
    pub stale: Map<u8, usize>,
    /// For each state, the transactions that got a missing partner.
    pub frontier: Map<u8, Seq<u64>>,
    /// All transactions of the frontier.
    pub frontier_ids: Set<u64>,
    /// The executed transactions that are remembered.
    pub processed: Set<u64>,
    /// The same, oldest first.
    pub processed_fifo: Seq<u64>,
    /// For each transaction, those whose order with it is open.
    pub partners: Map<u64, Set<u64>>,
    /// The pairs whose order is open.
    pub pairs: Set<(u64, u64)>,
    /// The pairs and the rounds that they were observed in, oldest first.
    pub pair_fifo: Seq<(u64, (u64, u64))>,
    /// The observations that are still to be handled.
    pub pending_observations: Seq<(u64, Seq<(u64, u64)>)>,
    /// The executed transactions that are still to be handled.
    pub pending_processed: Seq<Seq<u64>>,
    /// What each attempt to take a message from the channel of observations has given.
    pub taken_observed: Seq<Option<ControlView>>,
    /// What each attempt to take a message from the channel of executed transactions has given.
    pub taken_processed: Seq<Option<ControlView>>,
    pub next_sequence: u64,
}

/// What a look into the two channels gives. The channel of observations is looked into only where
/// nothing comes out of that of executed transactions.
pub enum Arrival {
    /// A message from the channel of executed transactions.
    Processed(ControlView),
    /// A message from the channel of observations, after the other one gave nothing.
    Observed(ControlView),
    /// Nothing from either of them.
    Nothing,
}

impl MakerView {
    /// What is known of a transaction.
    pub open spec fn tx_state(self, id: u64) -> TxState {
        if self.processed.contains(id) {
            TxState::Processed
        } else if self.known.contains_key(id) {
            TxState::Unprocessed
        } else if self.staged.contains(id) {
            TxState::InBatch
        } else {
            TxState::Unseen
        }
    }

    /// The order with some other transaction is open.
    pub open spec fn has_missing_partners(self, id: u64) -> bool {
        self.partners.contains_key(id) && self.partners[id] != Set::<u64>::empty()
    }

    /// A transaction of the frontier that still counts.
    pub open spec fn is_live(self, id: u64) -> bool {
        self.known.contains_key(id) && self.has_missing_partners(id)
    }

    /// `queue` from its first transaction that still counts.
    pub open spec fn drop_dead(self, queue: Seq<u64>) -> Seq<u64>
        decreases queue.len(),
    {
        if queue.len() > 0 && !self.is_live(queue[0]) {
            self.drop_dead(queue.drop_first())
        } else {
            queue
        }
    }

    /// The state after the transactions at the head of a frontier that no longer count are dropped.
    pub open spec fn prune_frontier(self, key: u8) -> MakerView {
        if !self.frontier.contains_key(key) {
            self
        } else {
            let queue = self.frontier[key];
            let left = self.drop_dead(queue);
            let dropped = queue.take(queue.len() - left.len());
            MakerView {
                frontier: if left.len() == 0 {
                    self.frontier.remove(key)
                } else {
                    self.frontier.insert(key, left)
                },
                frontier_ids: self.frontier_ids.difference(dropped.to_set()),
                ..self
            }
        }
    }

    /// The first transaction of a frontier that still counts.
    pub open spec fn unresolved_frontier(self, key: u8) -> Option<u64> {
        if self.frontier.contains_key(key) && self.drop_dead(self.frontier[key]).len() > 0 {
            Some(self.drop_dead(self.frontier[key])[0])
        } else {
            None
        }
    }

    /// What the next transaction that writes the state `key` follows on. The last writer surely
    /// comes before it, unless the last writer itself has an open order with another
    /// transaction; then nothing is sure, and the order with the last writer is open too.
    pub open spec fn dependency(self, key: u8) -> CrossBatchDependency {
        let frontier = self.unresolved_frontier(key);
        if !self.last_writer.contains_key(key) {
            CrossBatchDependency { edge_predecessor: None, missing_predecessor: frontier }
        } else {
            let last = self.last_writer[key];
            if self.tx_state(last) == TxState::Unprocessed && self.has_missing_partners(last) {
                CrossBatchDependency { edge_predecessor: None, missing_predecessor: Some(last) }
            } else {
                CrossBatchDependency {
                    edge_predecessor: Some(last),
                    missing_predecessor: if frontier == Some(last) {
                        None
                    } else {
                        frontier
                    },
                }
            }
        }
    }

    /// The state after a sealed transaction was recorded.
    pub open spec fn record(self, id: u64, key: u8) -> MakerView {
        MakerView {
            known: self.known.insert(id, key),
            unprocessed: if self.known.contains_key(id) {
                self.unprocessed
            } else {
                self.unprocessed.insert(key, queue_of(self.unprocessed, key).push(id))
            },
            ..self
        }
    }

    /// The state after `id` joined the frontier of its state.
    pub open spec fn enqueue_frontier(self, id: u64) -> MakerView {
        if !self.known.contains_key(id) || self.frontier_ids.contains(id) {
            self
        } else {
            let key = self.known[id];
            MakerView {
                frontier: self.frontier.insert(key, queue_of(self.frontier, key).push(id)),
                frontier_ids: self.frontier_ids.insert(id),
                ..self
            }
        }
    }

    /// The state after `partner` was recorded as a partner of `id`, where `id` is unprocessed.
    pub open spec fn record_partner(self, id: u64, partner: u64) -> MakerView {
        if self.tx_state(id) != TxState::Unprocessed {
            self
        } else {
            let known = partners_of(self.partners, id);
            let noted = MakerView {
                partners: self.partners.insert(id, known.insert(partner)),
                ..self
            };
            if known.contains(partner) {
                noted
            } else {
                noted.enqueue_frontier(id)
            }
        }
    }

    /// The state after `partner` is no longer a partner of `id`.
    pub open spec fn remove_partner(self, id: u64, partner: u64) -> MakerView {
        if !self.partners.contains_key(id) {
            self
        } else {
            let left = self.partners[id].remove(partner);
            MakerView {
                partners: if left == Set::<u64>::empty() {
                    self.partners.remove(id)
                } else {
                    self.partners.insert(id, left)
                },
                ..self
            }
        }
    }

    /// The state after a pair is no longer open.
    pub open spec fn remove_pair(self, pair: (u64, u64)) -> MakerView {
        if !self.pairs.contains(pair) {
            self
        } else {
            (MakerView { pairs: self.pairs.remove(pair), ..self }).remove_partner(
                pair.0,
                pair.1,
            ).remove_partner(pair.1, pair.0)
        }
    }

    /// The oldest pair has to go: there are too many pairs, or it is too old.
    pub open spec fn is_overdue(self, current: u64) -> bool {
        &&& self.pair_fifo.len() > 0
        &&& self.pairs.len() > MAX_MISSING_PAIRS || current - self.pair_fifo[0].0
            > MAX_MISSING_PAIR_AGE
    }

    /// The state without the oldest pair.
    pub open spec fn drop_oldest_pair(self) -> MakerView {
        (MakerView { pair_fifo: self.pair_fifo.drop_first(), ..self }).remove_pair(
            self.pair_fifo[0].1,
        )
    }

    /// The state after the pairs that have to go in the round `current` are gone.
    pub open spec fn prune_pairs(self, current: u64) -> MakerView
        decreases self.pair_fifo.len(),
    {
        if self.is_overdue(current) {
            self.drop_oldest_pair().prune_pairs(current)
        } else {
            self
        }
    }

    /// The state after an open pair was taken in.
    pub open spec fn insert_pair(self, sequence: u64, pair: (u64, u64)) -> MakerView {
        if pair.0 == pair.1 || self.pairs.contains(pair) {
            self
        } else {
            (MakerView {
                pairs: self.pairs.insert(pair),
                pair_fifo: self.pair_fifo.push((sequence, pair)),
                ..self
            }).record_partner(pair.0, pair.1).record_partner(pair.1, pair.0).prune_pairs(sequence)
        }
    }

    /// The state after a pair was observed as open in the round `sequence`: it is taken in
    /// where one of its transactions is unprocessed and none was executed.
    pub open spec fn observe_pair(self, sequence: u64, pair: (u64, u64)) -> MakerView {
        let left = self.tx_state(pair.0);
        let right = self.tx_state(pair.1);
        if left == TxState::Processed || right == TxState::Processed || (left
            != TxState::Unprocessed && right != TxState::Unprocessed) {
            self
        } else {
            self.insert_pair(sequence, pair)
        }
    }

    /// The state after all of `pairs` were observed.
    pub open spec fn observe_pairs(self, sequence: u64, pairs: Seq<(u64, u64)>) -> MakerView
        decreases pairs.len(),
    {
        if pairs.len() == 0 {
            self
        } else {
            self.observe_pairs(sequence, pairs.drop_last()).observe_pair(sequence, pairs.last())
        }
    }

    /// The state after `id` is remembered as executed.
    pub open spec fn remember(self, id: u64) -> MakerView {
        if self.processed.contains(id) {
            self
        } else if self.processed_fifo.len() < MAX_PROCESSED_TX_IDS {
            MakerView {
                processed: self.processed.insert(id),
                processed_fifo: self.processed_fifo.push(id),
                ..self
            }
        } else {
            MakerView {
                processed: self.processed.insert(id).remove(self.processed_fifo[0]),
                processed_fifo: self.processed_fifo.push(id).drop_first(),
                ..self
            }
        }
    }

    /// The order with `y` was open, and is no longer recorded once `id` is executed.
    pub open spec fn settles(self, id: u64, y: u64) -> bool {
        &&& partners_of(self.partners, id).contains(y)
        &&& self.pairs.contains(canonical_pair(id, y))
        &&& self.partners.contains_key(y)
    }

    /// The state after the pairs of `id` are gone.
    pub open spec fn remove_pairs_of(self, id: u64) -> MakerView {
        MakerView {
            pairs: self.pairs.difference(pairs_with(id, partners_of(self.partners, id))),
            partners: Map::new(
                |y: u64|
                    self.partners.contains_key(y) && y != id && !(self.settles(id, y)
                        && self.partners[y].remove(id) == Set::<u64>::empty()),
                |y: u64|
                    if self.settles(id, y) {
                        self.partners[y].remove(id)
                    } else {
                        self.partners[y]
                    },
            ),
            ..self
        }
    }

    /// The state after `id` was executed.
    pub open spec fn process_one(self, id: u64) -> MakerView {
        let noted = self.remember(id);
        let forgotten = if noted.known.contains_key(id) {
            let key = noted.known[id];
            MakerView {
                known: noted.known.remove(id),
                stale: noted.stale.insert(
                    key,
                    (stale_of(noted.stale, key) + 1) as usize,
                ),
                ..noted
            }
        } else {
            noted
        };
        forgotten.remove_pairs_of(id)
    }

    /// The state after all of `ids` were executed, before queues are tidied up.
    pub open spec fn process_each(self, ids: Seq<u64>) -> MakerView
        decreases ids.len(),
    {
        if ids.len() == 0 {
            self
        } else {
            self.process_each(ids.drop_last()).process_one(ids.last())
        }
    }

    /// The states that the unprocessed ones among `ids` write.
    pub open spec fn touched_keys(self, ids: Seq<u64>) -> Set<u8> {
        Set::new(
            |key: u8|
                exists|i: int|
                    0 <= i < ids.len() && self.known.contains_key(#[trigger] ids[i])
                        && self.known[ids[i]] == key,
        )
    }

    /// `queue` from its first unprocessed transaction.
    pub open spec fn drop_processed(self, queue: Seq<u64>) -> Seq<u64>
        decreases queue.len(),
    {
        if queue.len() > 0 && !self.known.contains_key(queue[0]) {
            self.drop_processed(queue.drop_first())
        } else {
            queue
        }
    }

    /// What is left of the queue of a state.
    pub open spec fn tidy_queue(self, key: u8) -> Seq<u64> {
        self.drop_processed(queue_of(self.unprocessed, key))
    }

    /// How many executed transactions are still counted after the queue was tidied up.
    pub open spec fn tidy_count(self, key: u8) -> int {
        let removed = queue_of(self.unprocessed, key).len() - self.tidy_queue(key).len();
        if stale_of(self.stale, key) >= removed {
            stale_of(self.stale, key) - removed
        } else {
            0
        }
    }

    /// The count of a state goes away when its queue is tidied up.
    pub open spec fn drops_count(self, key: u8) -> bool {
        ||| self.tidy_queue(key).len() == 0
        ||| self.tidy_queue(key).len() < queue_of(self.unprocessed, key).len() && self.tidy_count(
            key,
        ) == 0
    }

    /// The state after the queues of `keys` were tidied up: executed transactions are
    /// dropped from their heads.
    pub open spec fn tidy(self, keys: Set<u8>) -> MakerView {
        MakerView {
            unprocessed: Map::new(
                |key: u8|
                    self.unprocessed.contains_key(key) && !(keys.contains(key) && self.tidy_queue(
                        key,
                    ).len() == 0),
                |key: u8|
                    if keys.contains(key) {
                        self.tidy_queue(key)
                    } else {
                        self.unprocessed[key]
                    },
            ),
            stale: Map::new(
                |key: u8|
                    self.stale.contains_key(key) && !(keys.contains(key)
                        && self.unprocessed.contains_key(key) && self.drops_count(key)),
                |key: u8|
                    if keys.contains(key) && self.unprocessed.contains_key(key) {
                        self.tidy_count(key) as usize
                    } else {
                        self.stale[key]
                    },
            ),
            ..self
        }
    }

    /// The state after all of `ids` were executed.
    pub open spec fn process(self, ids: Seq<u64>) -> MakerView {
        self.process_each(ids).tidy(self.touched_keys(ids))
    }

    /// The state after a control message was queued.
    pub open spec fn enqueue(self, control: ControlView) -> MakerView {
        match control {
            ControlView::ObserveGlobalGraph(info) => {
                let pruned = self.prune_pairs(info.sequence);
                if info.missing_edges.len() > 0 {
                    MakerView {
                        pending_observations: pruned.pending_observations.push(
                            (info.sequence, info.missing_edges),
                        ),
                        ..pruned
                    }
                } else {
                    pruned
                }
            },
            ControlView::MarkProcessed(ids) => if ids.len() > 0 {
                MakerView { pending_processed: self.pending_processed.push(ids), ..self }
            } else {
                self
            },
        }
    }

    /// The state after a control message was handled at once.
    pub open spec fn handle(self, control: ControlView) -> MakerView {
        match control {
            ControlView::ObserveGlobalGraph(info) => self.prune_pairs(info.sequence).observe_pairs(
                info.sequence,
                info.missing_edges,
            ),
            ControlView::MarkProcessed(ids) => self.process(ids),
        }
    }

    /// The state after a look into the channels: what was taken out of them is queued.
    pub open spec fn receive(self, arrival: Arrival) -> MakerView {
        match arrival {
            Arrival::Processed(control) => (MakerView {
                taken_processed: self.taken_processed.push(Some(control)),
                ..self
            }).enqueue(control),
            Arrival::Observed(control) => (MakerView {
                taken_processed: self.taken_processed.push(None),
                taken_observed: self.taken_observed.push(Some(control)),
                ..self
            }).enqueue(control),
            Arrival::Nothing => MakerView {
                taken_processed: self.taken_processed.push(None),
                taken_observed: self.taken_observed.push(None),
                ..self
            },
        }
    }

    /// The state after up to `budget` of the executed transactions at the head of the queue.
    pub open spec fn work_processed(self, budget: nat) -> MakerView {
        let front = self.pending_processed[0];
        let n = least(budget, front.len());
        let worked = (MakerView {
            pending_processed: self.pending_processed.drop_first(),
            ..self
        }).process(front.take(n as int));
        if n < front.len() {
            MakerView {
                pending_processed: seq![front.skip(n as int)] + worked.pending_processed,
                ..worked
            }
        } else {
            worked
        }
    }

    /// The state after up to `budget` of the pairs at the head of the queue.
    pub open spec fn work_observed(self, budget: nat) -> MakerView {
        let (sequence, front) = self.pending_observations[0];
        let n = least(budget, front.len());
        let worked = (MakerView {
            pending_observations: self.pending_observations.drop_first(),
            ..self
        }).observe_pairs(sequence, front.take(n as int));
        if n < front.len() {
            MakerView {
                pending_observations: seq![(sequence, front.skip(n as int))]
                    + worked.pending_observations,
                ..worked
            }
        } else {
            worked
        }
    }

    /// Nothing is queued.
    pub open spec fn is_idle(self) -> bool {
        self.pending_processed.len() == 0 && self.pending_observations.len() == 0
    }

    /// One step of working off the queues, where `arrivals` are what comes in meanwhile: the
    /// state after it, and the work that it took. A step without work is the last.
    pub open spec fn drain_step(
        self,
        budget: nat,
        arrivals: (Arrival, Arrival, Arrival),
    ) -> (MakerView, nat) {
        if self.is_idle() && arrivals.0 is Nothing {
            (self.receive(arrivals.0), 0)
        } else {
            let first = if self.is_idle() {
                self.receive(arrivals.0)
            } else {
                self
            };
            let second = if first.pending_processed.len() == 0 {
                first.receive(arrivals.1)
            } else {
                first
            };
            if second.pending_processed.len() > 0 {
                (second.work_processed(budget), least(budget, second.pending_processed[0].len()))
            } else {
                let third = if second.pending_observations.len() == 0 {
                    second.receive(arrivals.2)
                } else {
                    second
                };
                if third.pending_observations.len() > 0 {
                    (
                        third.work_observed(budget),
                        least(budget, third.pending_observations[0].1.len()),
                    )
                } else {
                    (third, 0)
                }
            }
        }
    }

    /// `end` is the state after the queues were worked off within `budget`, where
    /// `arrivals` are what comes in during each step.
    pub open spec fn drains_to(
        self,
        budget: nat,
        arrivals: Seq<(Arrival, Arrival, Arrival)>,
        end: MakerView,
    ) -> bool
        decreases arrivals.len(),
    {
        if arrivals.len() == 0 {
            budget == 0 && end == self
        } else {
            let (next, spent) = self.drain_step(budget, arrivals[0]);
            &&& budget > 0
            &&& if spent == 0 {
                arrivals.len() == 1 && end == next
            } else {
                next.drains_to((budget - spent) as nat, arrivals.drop_first(), end)
            }
        }
    }

    /// The transaction would be a duplicate: one with its identifier is staged or unprocessed.
    pub open spec fn is_duplicate(self, tx: Seq<u8>) -> bool {
        match standard_id(tx) {
            Some(id) => self.staged.contains(id) || self.known.contains_key(id),
            None => false,
        }
    }

    /// The state after a transaction was staged.
    pub open spec fn stage(self, tx: Seq<u8>) -> MakerView {
        MakerView {
            current: self.current.push(tx),
            staged: match standard_id(tx) {
                Some(id) => self.staged.insert(id),
                None => self.staged,
            },
            size: self.size + tx.len(),
            ..self
        }
    }
}

/// The unprocessed transactions that write the state `key`.
pub open spec fn writers_of(known: Map<u64, u8>, key: u8) -> Set<u64> {
    Set::new(|id: u64| known.contains_key(id) && known[id] == key)
}

/// Each of `pairs` is in `fifo`, which tells its age.
pub open spec fn all_dated(pairs: Set<(u64, u64)>, fifo: Seq<(u64, (u64, u64))>) -> bool {
    forall|p: (u64, u64)| #[trigger]
        pairs.contains(p) ==> exists|i: int| 0 <= i < fifo.len() && (#[trigger] fifo[i]).1 == p
}

impl MakerView {
    /// The open batch is accounted for, and none of its standard transactions is a duplicate.
    pub open spec fn valid_batch(self) -> bool {
        &&& self.size == total_size(self.current)
        &&& self.staged == standard_ids(self.current)
        &&& forall|i: int, j: int|
            0 <= i < j < self.current.len() && standard_id(#[trigger] self.current[i]) is Some
                ==> standard_id(self.current[i]) != standard_id(#[trigger] self.current[j])
        &&& self.staged.disjoint(self.known.dom())
    }

    /// Each unprocessed transaction is queued with its state, and the executed ones that are
    /// counted fit in beside them.
    pub open spec fn valid_queues(self) -> bool {
        &&& self.known.dom().finite()
        &&& forall|id: u64|
            self.known.contains_key(id) ==> queue_of(
                self.unprocessed,
                #[trigger] self.known[id],
            ).contains(id)
        &&& forall|key: u8|
            stale_of(self.stale, key) + (#[trigger] writers_of(self.known, key)).len() <= queue_of(
                self.unprocessed,
                key,
            ).len()
    }

    /// The executed transactions that are remembered are bounded, and their order is known.
    pub open spec fn valid_processed(self) -> bool {
        &&& self.processed_fifo.no_duplicates()
        &&& self.processed_fifo.to_set() == self.processed
        &&& self.processed_fifo.len() <= MAX_PROCESSED_TX_IDS
    }

    /// The age of every open pair is known.
    pub open spec fn aged_pairs(self) -> bool {
        self.pairs.finite() && all_dated(self.pairs, self.pair_fifo)
    }

    /// The open pairs are bounded, and their age is known.
    pub open spec fn valid_pairs(self) -> bool {
        &&& self.aged_pairs()
        &&& self.pairs.len() <= MAX_MISSING_PAIRS
    }

    /// Nothing that is queued is empty.
    pub open spec fn valid_pending(self) -> bool {
        &&& forall|i: int|
            0 <= i < self.pending_processed.len() ==> (#[trigger] self.pending_processed[i]).len()
                > 0
        &&& forall|i: int|
            0 <= i < self.pending_observations.len() ==> (
            #[trigger] self.pending_observations[i]).1.len() > 0
    }

    /// The invariant of a batch maker.
    pub open spec fn valid(self) -> bool {
        &&& self.valid_batch()
        &&& self.valid_queues()
        &&& self.valid_processed()
        &&& self.valid_pairs()
        &&& self.valid_pending()
    }

    /// Everything but the open pairs is as it was, and there are no new ones.
    pub open spec fn sheds_pairs(self, before: MakerView) -> bool {
        &&& self.pairs.subset_of(before.pairs)
        &&& self == MakerView { pairs: self.pairs, partners: self.partners, pair_fifo: self.pair_fifo, ..before }
    }
}

/// Removing a pair changes nothing but the pairs and partners.
pub proof fn lemma_remove_pair(view: MakerView, pair: (u64, u64))
    ensures
        view.remove_pair(pair).pairs == view.pairs.remove(pair),
        view.remove_pair(pair).sheds_pairs(view),
        view.remove_pair(pair).pair_fifo == view.pair_fifo,
{
    assert(view.remove_pair(pair).pairs =~= view.pairs.remove(pair));
}

/// Pruning changes nothing but the pairs and partners, and leaves no more pairs than are allowed.
pub proof fn lemma_prune_pairs(view: MakerView, current: u64)
    requires
        view.aged_pairs(),
    ensures
        view.prune_pairs(current).valid_pairs(),
        view.prune_pairs(current).sheds_pairs(view),
    decreases view.pair_fifo.len(),
{
    if view.is_overdue(current) {
        let popped = MakerView { pair_fifo: view.pair_fifo.drop_first(), ..view };
        let pair = view.pair_fifo[0].1;
        let next = view.drop_oldest_pair();
        lemma_remove_pair(popped, pair);
        assert forall|p: (u64, u64)| #[trigger] next.pairs.contains(p) implies exists|i: int|
            0 <= i < next.pair_fifo.len() && (#[trigger] next.pair_fifo[i]).1 == p by {
            let i = choose|i: int|
                0 <= i < view.pair_fifo.len() && (#[trigger] view.pair_fifo[i]).1 == p;
            assert(next.pair_fifo[i - 1] == view.pair_fifo[i]);
        }
        lemma_prune_pairs(next, current);
    } else {
        if view.pair_fifo.len() == 0 {
            assert(view.pairs =~= Set::empty()) by {
                assert forall|p: (u64, u64)| !view.pairs.contains(p) by {}
            }
        }
    }
}

/// Observing a pair changes nothing but the pairs, partners and frontier.
pub proof fn lemma_observe_pair(view: MakerView, sequence: u64, pair: (u64, u64))
    requires
        view.valid(),
    ensures
        view.observe_pair(sequence, pair).valid(),
        view.observe_pair(sequence, pair).pending_observations == view.pending_observations,
        view.observe_pair(sequence, pair).pending_processed == view.pending_processed,
        view.observe_pair(sequence, pair).known == view.known,
        view.observe_pair(sequence, pair).processed == view.processed,
{
    let next = view.observe_pair(sequence, pair);
    if next != view {
        let taken = (MakerView {
            pairs: view.pairs.insert(pair),
            pair_fifo: view.pair_fifo.push((sequence, pair)),
            ..view
        }).record_partner(pair.0, pair.1).record_partner(pair.1, pair.0);
        assert forall|p: (u64, u64)| #[trigger] taken.pairs.contains(p) implies exists|i: int|
            0 <= i < taken.pair_fifo.len() && (#[trigger] taken.pair_fifo[i]).1 == p by {
            if p == pair {
                assert(taken.pair_fifo[view.pair_fifo.len() as int].1 == pair);
            } else {
                let i = choose|i: int|
                    0 <= i < view.pair_fifo.len() && (#[trigger] view.pair_fifo[i]).1 == p;
                assert(taken.pair_fifo[i] == view.pair_fifo[i]);
            }
        }
        lemma_prune_pairs(taken, sequence);
    }
}

/// Observing pairs keeps the invariant.
pub proof fn lemma_observe_pairs(view: MakerView, sequence: u64, pairs: Seq<(u64, u64)>)
    requires
        view.valid(),
    ensures
        view.observe_pairs(sequence, pairs).valid(),
        view.observe_pairs(sequence, pairs).pending_observations == view.pending_observations,
        view.observe_pairs(sequence, pairs).pending_processed == view.pending_processed,
    decreases pairs.len(),
{
    if pairs.len() > 0 {
        lemma_observe_pairs(view, sequence, pairs.drop_last());
        lemma_observe_pair(view.observe_pairs(sequence, pairs.drop_last()), sequence, pairs.last());
    }
}

/// Remembering an executed transaction keeps what is remembered bounded.
pub proof fn lemma_remember(view: MakerView, id: u64)
    requires
        view.valid_processed(),
    ensures
        view.remember(id).valid_processed(),
        view.remember(id).processed.contains(id),
{
    let fifo = view.processed_fifo;
    if !view.processed.contains(id) {
        assert(!fifo.contains(id)) by {
            if fifo.contains(id) {
                assert(fifo.to_set().contains(id));
            }
        }
        let pushed = fifo.push(id);
        crate::ordered::lemma_push_contains(fifo, id);
        assert(pushed.no_duplicates());
        assert(pushed.to_set() =~= view.processed.insert(id));
        if fifo.len() >= MAX_PROCESSED_TX_IDS {
            let left = pushed.drop_first();
            assert forall|x: u64| left.contains(x) <==> pushed.contains(x) && x != pushed[0] by {
                if left.contains(x) {
                    let k = choose|k: int| 0 <= k < left.len() && left[k] == x;
                    assert(pushed[k + 1] == x);
                }
                if pushed.contains(x) && x != pushed[0] {
                    let k = choose|k: int| 0 <= k < pushed.len() && pushed[k] == x;
                    assert(left[k - 1] == x);
                }
            }
            assert(left.no_duplicates());
            assert(left.to_set() =~= view.processed.insert(id).remove(fifo[0])) by {
                assert forall|x: u64| left.to_set().contains(x) <==> view.processed.insert(
                    id,
                ).remove(fifo[0]).contains(x) by {
                    assert(left.to_set().contains(x) <==> left.contains(x));
                    assert(pushed.to_set().contains(x) <==> pushed.contains(x));
                }
            }
            assert(left[left.len() - 1] == id);
        }
    }
}

/// The count of a state can grow by one while a transaction that writes it is unprocessed.
pub proof fn lemma_count_fits(view: MakerView, id: u64)
    requires
        view.valid_queues(),
        view.known.contains_key(id),
    ensures
        stale_of(view.stale, view.known[id]) < queue_of(view.unprocessed, view.known[id]).len(),
{
    let key = view.known[id];
    let writers = writers_of(view.known, key);
    assert(writers.subset_of(view.known.dom()));
    vstd::set_lib::lemma_set_subset_finite(view.known.dom(), writers);
    assert(writers.contains(id));
    assert(writers.remove(id).len() == writers.len() - 1);
}

/// Executing a transaction keeps the invariant.
pub proof fn lemma_process_one(view: MakerView, id: u64)
    requires
        view.valid(),
        view.known.contains_key(id) ==> queue_of(view.unprocessed, view.known[id]).len()
            <= usize::MAX,
    ensures
        view.process_one(id).valid(),
        view.process_one(id).known == view.known.remove(id),
        view.process_one(id).unprocessed == view.unprocessed,
        view.process_one(id).pending_observations == view.pending_observations,
        view.process_one(id).pending_processed == view.pending_processed,
        view.process_one(id).processed.contains(id),
{
    let next = view.process_one(id);
    lemma_remember(view, id);
    assert(next.known =~= view.known.remove(id));
    assert(next.pairs.subset_of(view.pairs));
    vstd::set_lib::lemma_set_subset_finite(view.pairs, next.pairs);
    vstd::set_lib::lemma_len_subset(next.pairs, view.pairs);
    assert forall|p: (u64, u64)| #[trigger] next.pairs.contains(p) implies exists|i: int|
        0 <= i < next.pair_fifo.len() && (#[trigger] next.pair_fifo[i]).1 == p by {
        assert(view.pairs.contains(p));
        let i = choose|i: int|
            0 <= i < view.pair_fifo.len() && (#[trigger] view.pair_fifo[i]).1 == p;
        assert(next.pair_fifo[i].1 == p);
    }
    if view.known.contains_key(id) {
        let key = view.known[id];
        lemma_count_fits(view, id);
        assert forall|other: u8|
            stale_of(next.stale, other) + (#[trigger] writers_of(next.known, other)).len()
                <= queue_of(next.unprocessed, other).len() by {
            assert(stale_of(view.stale, other) + writers_of(view.known, other).len() <= queue_of(
                view.unprocessed,
                other,
            ).len());
            let writers = writers_of(view.known, other);
            vstd::set_lib::lemma_set_subset_finite(view.known.dom(), writers);
            if other == key {
                assert(writers.contains(id));
                assert(writers_of(next.known, other) =~= writers.remove(id));
            } else {
                assert(writers_of(next.known, other) =~= writers);
            }
        }
        assert forall|y: u64| next.known.contains_key(y) implies queue_of(
            next.unprocessed,
            #[trigger] next.known[y],
        ).contains(y) by {
            assert(view.known.contains_key(y) && view.known[y] == next.known[y]);
        }
    } else {
        assert(next.known == view.known);
        assert(next.stale == view.stale);
        assert(next.unprocessed == view.unprocessed);
    }
}

/// Executing transactions keeps the invariant.
pub proof fn lemma_process_each(view: MakerView, ids: Seq<u64>)
    requires
        view.valid(),
        forall|key: u8| (#[trigger] queue_of(view.unprocessed, key)).len() <= usize::MAX,
    ensures
        view.process_each(ids).valid(),
        view.process_each(ids).known == view.known.remove_keys(ids.to_set()),
        view.process_each(ids).unprocessed == view.unprocessed,
        view.process_each(ids).pending_observations == view.pending_observations,
        view.process_each(ids).pending_processed == view.pending_processed,
    decreases ids.len(),
{
    if ids.len() == 0 {
        assert(view.known.remove_keys(ids.to_set()) =~= view.known);
    } else {
        let fewer = ids.drop_last();
        let before = view.process_each(fewer);
        lemma_process_each(view, fewer);
        lemma_process_one(before, ids.last());
        assert(ids =~= fewer.push(ids.last()));
        fewer.lemma_push_to_set_commute(ids.last());
        assert(before.known.remove(ids.last()) =~= view.known.remove_keys(ids.to_set()));
    }
}

/// What is left of a queue depends on the unprocessed transactions alone.
pub proof fn lemma_drop_processed(a: MakerView, b: MakerView, queue: Seq<u64>)
    requires
        a.known == b.known,
    ensures
        a.drop_processed(queue) == b.drop_processed(queue),
        a.drop_processed(queue).len() <= queue.len(),
        a.drop_processed(queue) == queue.skip(queue.len() - a.drop_processed(queue).len()),
        forall|i: int|
            0 <= i < queue.len() - a.drop_processed(queue).len() ==> !a.known.contains_key(
                #[trigger] queue[i],
            ),
    decreases queue.len(),
{
    if queue.len() > 0 && !a.known.contains_key(queue[0]) {
        let rest = queue.drop_first();
        lemma_drop_processed(a, b, rest);
        let left = a.drop_processed(queue);
        assert(left =~= queue.skip(queue.len() - left.len()));
        assert forall|i: int| 0 <= i < queue.len() - left.len() implies !a.known.contains_key(
            #[trigger] queue[i],
        ) by {
            if i > 0 {
                assert(rest[i - 1] == queue[i]);
            }
        }
    } else {
        assert(queue.skip(0) =~= queue);
    }
}

/// Tidying up keeps the invariant of the queues.
pub proof fn lemma_tidy(view: MakerView, keys: Set<u8>)
    requires
        view.valid_queues(),
        forall|key: u8| (#[trigger] queue_of(view.unprocessed, key)).len() <= usize::MAX,
    ensures
        view.tidy(keys).valid_queues(),
{
    let next = view.tidy(keys);
    assert forall|id: u64| next.known.contains_key(id) implies queue_of(
        next.unprocessed,
        #[trigger] next.known[id],
    ).contains(id) by {
        let key = view.known[id];
        let queue = queue_of(view.unprocessed, key);
        assert(queue.contains(id));
        lemma_drop_processed(view, view, queue);
        let left = view.tidy_queue(key);
        let k = choose|k: int| 0 <= k < queue.len() && queue[k] == id;
        let gone = queue.len() - left.len();
        assert(k >= gone);
        assert(left[k - gone] == id);
    }
    assert forall|key: u8|
        stale_of(next.stale, key) + (#[trigger] writers_of(next.known, key)).len() <= queue_of(
            next.unprocessed,
            key,
        ).len() by {
        assert(stale_of(view.stale, key) + writers_of(view.known, key).len() <= queue_of(
            view.unprocessed,
            key,
        ).len());
        let queue = queue_of(view.unprocessed, key);
        lemma_drop_processed(view, view, queue);
        let left = view.tidy_queue(key);
        let writers = writers_of(view.known, key);
        if keys.contains(key) && view.unprocessed.contains_key(key) {
            let gone = queue.len() - left.len();
            assert forall|id: u64| writers.contains(id) implies left.to_set().contains(id) by {
                assert(queue_of(view.unprocessed, view.known[id]).contains(id));
                let k = choose|k: int| 0 <= k < queue.len() && queue[k] == id;
                assert(k >= gone);
                assert(left[k - gone] == id);
            }
            broadcast use vstd::seq_lib::seq_to_set_is_finite;
            left.lemma_cardinality_of_set();
            vstd::set_lib::lemma_len_subset(writers, left.to_set());
            assert(stale_of(next.stale, key) <= view.tidy_count(key));
            assert(queue_of(next.unprocessed, key) =~= left);
        } else {
            assert(queue_of(next.unprocessed, key) == queue);
            assert(stale_of(next.stale, key) <= stale_of(view.stale, key));
        }
    }
}

/// Handling executed transactions keeps the invariant, and leaves them processed or evicted.
pub proof fn lemma_process(view: MakerView, ids: Seq<u64>)
    requires
        view.valid(),
        forall|key: u8| (#[trigger] queue_of(view.unprocessed, key)).len() <= usize::MAX,
    ensures
        view.process(ids).valid(),
        view.process(ids).known == view.known.remove_keys(ids.to_set()),
        view.process(ids).pending_observations == view.pending_observations,
        view.process(ids).pending_processed == view.pending_processed,
{
    lemma_process_each(view, ids);
    lemma_tidy(view.process_each(ids), view.touched_keys(ids));
}

/// Recording a sealed transaction keeps the invariant.
pub proof fn lemma_record(view: MakerView, id: u64, key: u8)
    requires
        view.valid(),
        !view.staged.contains(id),
        view.known.contains_key(id) ==> view.known[id] == key,
    ensures
        view.record(id, key).valid(),
{
    let next = view.record(id, key);
    if view.known.contains_key(id) {
        assert(next.known =~= view.known);
        assert(next == view);
    } else {
        let queue = queue_of(view.unprocessed, key);
        crate::ordered::lemma_push_contains(queue, id);
        assert forall|y: u64| next.known.contains_key(y) implies queue_of(
            next.unprocessed,
            #[trigger] next.known[y],
        ).contains(y) by {
            if y != id {
                assert(view.known.contains_key(y) && view.known[y] == next.known[y]);
                assert(queue_of(view.unprocessed, view.known[y]).contains(y));
            }
        }
        assert forall|other: u8|
            stale_of(next.stale, other) + (#[trigger] writers_of(next.known, other)).len()
                <= queue_of(next.unprocessed, other).len() by {
            assert(stale_of(view.stale, other) + writers_of(view.known, other).len() <= queue_of(
                view.unprocessed,
                other,
            ).len());
            let writers = writers_of(view.known, other);
            assert(writers.subset_of(view.known.dom()));
            vstd::set_lib::lemma_set_subset_finite(view.known.dom(), writers);
            if other == key {
                assert(writers_of(next.known, other) =~= writers.insert(id));
            } else {
                assert(writers_of(next.known, other) =~= writers);
            }
        }
    }
}

/// Queueing a control message keeps the invariant.
pub proof fn lemma_enqueue(view: MakerView, control: ControlView)
    requires
        view.valid(),
    ensures
        view.enqueue(control).valid(),
        view.enqueue(control).unprocessed == view.unprocessed,
{
    if let ControlView::ObserveGlobalGraph(info) = control {
        lemma_prune_pairs(view, info.sequence);
    }
}

/// Staging a transaction that is no duplicate keeps the invariant.
pub proof fn lemma_stage(view: MakerView, tx: Seq<u8>)
    requires
        view.valid(),
        !view.is_duplicate(tx),
    ensures
        view.stage(tx).valid(),
{
    let next = view.stage(tx);
    let txs = view.current;
    let more = next.current;
    assert(more.drop_last() =~= txs);
    assert forall|id: u64| next.staged.contains(id) <==> standard_ids(more).contains(id) by {
        if standard_ids(txs).contains(id) {
            let i = choose|i: int| 0 <= i < txs.len() && standard_id(#[trigger] txs[i]) == Some(id);
            assert(more[i] == txs[i]);
        }
        if standard_id(tx) == Some(id) {
            assert(more[txs.len() as int] == tx);
        }
        if standard_ids(more).contains(id) {
            let i = choose|i: int|
                0 <= i < more.len() && standard_id(#[trigger] more[i]) == Some(id);
            if i < txs.len() {
                assert(txs[i] == more[i]);
            }
        }
    }
    assert(next.staged =~= standard_ids(more));
    assert forall|i: int, j: int|
        0 <= i < j < more.len() && standard_id(#[trigger] more[i]) is Some implies standard_id(
        more[i],
    ) != standard_id(#[trigger] more[j]) by {
        assert(more[i] == txs[i]);
        if j < txs.len() {
            assert(more[j] == txs[j]);
        } else {
            let id = standard_id(txs[i])->0;
            assert(standard_ids(txs).contains(id));
        }
    }
}

/// The standard transactions among `txs`, each with the state that it writes, in the same order.
pub open spec fn standard_list(txs: Seq<Seq<u8>>) -> Seq<(u64, u8)>
    decreases txs.len(),
{
    if txs.len() == 0 {
        Seq::empty()
    } else {
        match standard_id_and_key(txs.last()) {
            Some(entry) => standard_list(txs.drop_last()).push(entry),
            None => standard_list(txs.drop_last()),
        }
    }
}

/// The last writer of each state after all of `list`.
pub open spec fn write_all(last_writer: Map<u8, u64>, list: Seq<(u64, u8)>) -> Map<u8, u64>
    decreases list.len(),
{
    if list.len() == 0 {
        last_writer
    } else {
        write_all(last_writer, list.drop_last()).insert(list.last().1, list.last().0)
    }
}

/// An earlier transaction of `list`, before position `j`, writes the same state.
pub open spec fn writes_before(list: Seq<(u64, u8)>, j: int, id: u64) -> bool {
    exists|i: int| 0 <= i < j && #[trigger] list[i] == (id, list[j].1)
}

impl MakerView {
    /// The state after the frontiers of all the states that `list` writes were pruned.
    pub open spec fn prune_frontiers(self, list: Seq<(u64, u8)>) -> MakerView
        decreases list.len(),
    {
        if list.len() == 0 {
            self
        } else {
            self.prune_frontiers(list.drop_last()).prune_frontier(list.last().1)
        }
    }

    /// The state after all of `list` were recorded.
    pub open spec fn record_all(self, list: Seq<(u64, u8)>) -> MakerView
        decreases list.len(),
    {
        if list.len() == 0 {
            self
        } else {
            self.record_all(list.drop_last()).record(list.last().0, list.last().1)
        }
    }

    /// The transaction at `j` follows on `id`: it surely comes after it, or an earlier
    /// transaction of the batch with that identifier writes the same state.
    pub open spec fn follows(self, list: Seq<(u64, u8)>, j: int, id: u64) -> bool {
        &&& id != list[j].0
        &&& self.dependency(list[j].1).edge_predecessor == Some(id) || writes_before(list, j, id)
    }

    /// The edges of a batch of `list`.
    pub open spec fn batch_edges(self, list: Seq<(u64, u8)>) -> Set<(u64, u64)> {
        Set::new(
            |e: (u64, u64)|
                exists|j: int|
                    0 <= j < list.len() && e.1 == (#[trigger] list[j]).0 && self.follows(
                        list,
                        j,
                        e.0,
                    ),
        )
    }

    /// The missing pairs of a batch of `list`.
    pub open spec fn batch_missing(self, list: Seq<(u64, u8)>) -> Set<(u64, u64)> {
        Set::new(
            |e: (u64, u64)|
                exists|j: int|
                    0 <= j < list.len() && e.1 == (#[trigger] list[j]).0 && e.0 != e.1
                        && self.dependency(list[j].1).missing_predecessor == Some(e.0),
        )
    }

    /// The state after the open batch was sealed.
    pub open spec fn seal(self) -> MakerView {
        let list = standard_list(self.current);
        (MakerView {
            current: Seq::empty(),
            staged: Set::empty(),
            size: 0,
            last_writer: write_all(self.last_writer, list),
            next_sequence: (self.next_sequence + 1) as u64,
            ..self.prune_frontiers(list)
        }).record_all(list)
    }
}

/// What is left of a frontier starts with a transaction that counts.
pub proof fn lemma_drop_dead(a: MakerView, b: MakerView, queue: Seq<u64>)
    requires
        a.known == b.known,
        a.partners == b.partners,
    ensures
        a.drop_dead(queue) == b.drop_dead(queue),
        a.drop_dead(a.drop_dead(queue)) == a.drop_dead(queue),
        a.drop_dead(queue).len() > 0 ==> a.is_live(a.drop_dead(queue)[0]),
    decreases queue.len(),
{
    if queue.len() > 0 && !a.is_live(queue[0]) {
        lemma_drop_dead(a, b, queue.drop_first());
    }
}

/// Pruning a frontier changes nothing that a dependency rests on.
pub proof fn lemma_prune_frontier(view: MakerView, key: u8, other: u8)
    ensures
        view.prune_frontier(key).dependency(other) == view.dependency(other),
        view.prune_frontier(key) == (MakerView {
            frontier: view.prune_frontier(key).frontier,
            frontier_ids: view.prune_frontier(key).frontier_ids,
            ..view
        }),
{
    let next = view.prune_frontier(key);
    if view.frontier.contains_key(other) {
        lemma_drop_dead(view, next, view.frontier[other]);
        lemma_drop_dead(next, view, view.drop_dead(view.frontier[other]));
    }
    assert(next.unresolved_frontier(other) == view.unresolved_frontier(other));
}

/// Pruning frontiers changes nothing that a dependency rests on.
pub proof fn lemma_prune_frontiers(view: MakerView, list: Seq<(u64, u8)>, other: u8)
    ensures
        view.prune_frontiers(list).dependency(other) == view.dependency(other),
        view.prune_frontiers(list) == (MakerView {
            frontier: view.prune_frontiers(list).frontier,
            frontier_ids: view.prune_frontiers(list).frontier_ids,
            ..view
        }),
    decreases list.len(),
{
    if list.len() > 0 {
        lemma_prune_frontiers(view, list.drop_last(), other);
        lemma_prune_frontier(view.prune_frontiers(list.drop_last()), list.last().1, other);
    }
}

/// What a dependency rests on.
pub proof fn lemma_dependency_rests_on(a: MakerView, b: MakerView, key: u8)
    requires
        a.known == b.known,
        a.partners == b.partners,
        a.frontier == b.frontier,
        a.last_writer == b.last_writer,
        a.processed == b.processed,
    ensures
        a.dependency(key) == b.dependency(key),
{
    if a.frontier.contains_key(key) {
        lemma_drop_dead(a, b, a.frontier[key]);
    }
}

/// A dependency points to unprocessed transactions, but for a last writer that surely comes
/// before; and never to the same transaction twice.
pub proof fn lemma_dependency(view: MakerView, key: u8)
    ensures
        view.dependency(key).missing_predecessor matches Some(id) ==> view.known.contains_key(id),
        view.dependency(key).missing_predecessor is Some
            ==> view.dependency(key).missing_predecessor != view.dependency(key).edge_predecessor,
{
    if view.frontier.contains_key(key) {
        lemma_drop_dead(view, view, view.frontier[key]);
    }
}

/// The listed transactions are among the standard ones, and are listed once.
pub proof fn lemma_standard_list(txs: Seq<Seq<u8>>)
    requires
        forall|i: int, j: int|
            0 <= i < j < txs.len() && standard_id(#[trigger] txs[i]) is Some ==> standard_id(txs[i])
                != standard_id(#[trigger] txs[j]),
    ensures
        forall|i: int|
            0 <= i < standard_list(txs).len() ==> standard_ids(txs).contains(
                (#[trigger] standard_list(txs)[i]).0,
            ),
        forall|i: int, j: int|
            0 <= i < j < standard_list(txs).len() ==> (#[trigger] standard_list(txs)[i]).0 != (
            #[trigger] standard_list(txs)[j]).0,
    decreases txs.len(),
{
    if txs.len() > 0 {
        let fewer = txs.drop_last();
        let list = standard_list(txs);
        let shorter = standard_list(fewer);
        assert forall|i: int, j: int|
            0 <= i < j < fewer.len() && standard_id(#[trigger] fewer[i]) is Some implies standard_id(
            fewer[i],
        ) != standard_id(#[trigger] fewer[j]) by {
            assert(txs[i] == fewer[i] && txs[j] == fewer[j]);
        }
        lemma_standard_list(fewer);
        assert forall|i: int| 0 <= i < list.len() implies standard_ids(txs).contains(
            (#[trigger] list[i]).0,
        ) by {
            if i < shorter.len() {
                assert(list[i] == shorter[i]);
                let id = shorter[i].0;
                let k = choose|k: int|
                    0 <= k < fewer.len() && standard_id(#[trigger] fewer[k]) == Some(id);
                assert(txs[k] == fewer[k]);
            } else {
                assert(standard_id(txs[txs.len() - 1]) == Some(list[i].0));
            }
        }
        assert forall|i: int, j: int| 0 <= i < j < list.len() implies (#[trigger] list[i]).0 != (
        #[trigger] list[j]).0 by {
            assert(list[i] == shorter[i]);
            if j < shorter.len() {
                assert(list[j] == shorter[j]);
            } else {
                let id = shorter[i].0;
                let k = choose|k: int|
                    0 <= k < fewer.len() && standard_id(#[trigger] fewer[k]) == Some(id);
                assert(txs[k] == fewer[k]);
                assert(standard_id(txs[k]) != standard_id(txs[txs.len() - 1]));
            }
        }
    }
}

/// Recording new transactions keeps the invariant.
pub proof fn lemma_record_all(view: MakerView, list: Seq<(u64, u8)>)
    requires
        view.valid(),
        view.staged == Set::<u64>::empty(),
        forall|i: int| 0 <= i < list.len() ==> !view.known.contains_key((#[trigger] list[i]).0),
        forall|i: int, j: int|
            0 <= i < j < list.len() ==> (#[trigger] list[i]).0 != (#[trigger] list[j]).0,
    ensures
        view.record_all(list).valid(),
        view.record_all(list).staged == Set::<u64>::empty(),
        forall|id: u64| #[trigger]
            view.record_all(list).known.contains_key(id) <==> view.known.contains_key(id)
                || exists|i: int| 0 <= i < list.len() && (#[trigger] list[i]).0 == id,
    decreases list.len(),
{
    if list.len() > 0 {
        let fewer = list.drop_last();
        lemma_record_all(view, fewer);
        let before = view.record_all(fewer);
        let (id, key) = list.last();
        assert(!before.known.contains_key(id)) by {
            assert(list[list.len() - 1].0 == id);
            if exists|i: int| 0 <= i < fewer.len() && (#[trigger] fewer[i]).0 == id {
                let i = choose|i: int| 0 <= i < fewer.len() && (#[trigger] fewer[i]).0 == id;
                assert(list[i].0 != list[list.len() - 1].0);
            }
        }
        lemma_record(before, id, key);
        assert forall|x: u64| #[trigger] view.record_all(list).known.contains_key(x)
            <==> view.known.contains_key(x) || exists|i: int|
            0 <= i < list.len() && (#[trigger] list[i]).0 == x by {
            assert(view.record_all(list).known.contains_key(x) <==> before.known.contains_key(x)
                || x == id);
            if exists|i: int| 0 <= i < fewer.len() && (#[trigger] fewer[i]).0 == x {
                let i = choose|i: int| 0 <= i < fewer.len() && (#[trigger] fewer[i]).0 == x;
                assert(list[i].0 == x);
            }
            if x == id {
                assert(list[list.len() - 1].0 == id);
            }
            if exists|i: int| 0 <= i < list.len() && (#[trigger] list[i]).0 == x {
                let i = choose|i: int| 0 <= i < list.len() && (#[trigger] list[i]).0 == x;
                if i < fewer.len() {
                    assert(fewer[i].0 == x);
                }
            }
        }
    }
}

/// Sealing keeps the invariant.
pub proof fn lemma_seal(view: MakerView)
    requires
        view.valid(),
    ensures
        view.seal().valid(),
{
    let list = standard_list(view.current);
    lemma_prune_frontiers(view, list, 0);
    lemma_standard_list(view.current);
    let cleared = MakerView {
        current: Seq::empty(),
        staged: Set::empty(),
        size: 0,
        last_writer: write_all(view.last_writer, list),
        next_sequence: (view.next_sequence + 1) as u64,
        ..view.prune_frontiers(list)
    };
    assert(cleared.staged =~= standard_ids(cleared.current));
    assert(cleared.valid());
    assert forall|i: int| 0 <= i < list.len() implies !cleared.known.contains_key(
        (#[trigger] list[i]).0,
    ) by {
        assert(view.staged.contains(list[i].0));
        assert(!view.known.dom().contains(list[i].0));
    }
    lemma_record_all(cleared, list);
}

impl MakerView {
    /// The open batch and the number of the next one are as before.
    pub open spec fn keeps_batch(self, before: MakerView) -> bool {
        &&& self.name == before.name
        &&& self.batch_size == before.batch_size
        &&& self.current == before.current
        &&& self.staged == before.staged
        &&& self.size == before.size
        &&& self.last_writer == before.last_writer
        &&& self.next_sequence == before.next_sequence
    }

    /// Nothing was taken out of the channels since.
    pub open spec fn keeps_taken(self, before: MakerView) -> bool {
        self.taken_observed == before.taken_observed && self.taken_processed
            == before.taken_processed
    }
}

proof fn lemma_prune_pairs_keep(view: MakerView, current: u64)
    ensures
        view.prune_pairs(current).keeps_batch(view),
        view.prune_pairs(current).keeps_taken(view),
    decreases view.pair_fifo.len(),
{
    if view.is_overdue(current) {
        lemma_prune_pairs_keep(view.drop_oldest_pair(), current);
    }
}

proof fn lemma_observe_pairs_keep(view: MakerView, sequence: u64, pairs: Seq<(u64, u64)>)
    ensures
        view.observe_pairs(sequence, pairs).keeps_batch(view),
        view.observe_pairs(sequence, pairs).keeps_taken(view),
    decreases pairs.len(),
{
    if pairs.len() > 0 {
        lemma_observe_pairs_keep(view, sequence, pairs.drop_last());
        let before = view.observe_pairs(sequence, pairs.drop_last());
        let pair = pairs.last();
        let taken = (MakerView {
            pairs: before.pairs.insert(pair),
            pair_fifo: before.pair_fifo.push((sequence, pair)),
            ..before
        }).record_partner(pair.0, pair.1).record_partner(pair.1, pair.0);
        lemma_prune_pairs_keep(taken, sequence);
    }
}

proof fn lemma_process_each_keep(view: MakerView, ids: Seq<u64>)
    ensures
        view.process_each(ids).keeps_batch(view),
        view.process_each(ids).keeps_taken(view),
    decreases ids.len(),
{
    if ids.len() > 0 {
        lemma_process_each_keep(view, ids.drop_last());
    }
}

proof fn lemma_receive_keeps(view: MakerView, arrival: Arrival)
    ensures
        view.receive(arrival).keeps_batch(view),
        view.receive(arrival).taken_processed == view.taken_processed + processed_outcomes(
            seq![arrival],
        ),
        view.receive(arrival).taken_observed == view.taken_observed + observed_outcomes(
            seq![arrival],
        ),
{
    lemma_outcomes_few(arrival);
    let noted = match arrival {
        Arrival::Processed(control) => MakerView {
            taken_processed: view.taken_processed.push(Some(control)),
            ..view
        },
        Arrival::Observed(control) => MakerView {
            taken_processed: view.taken_processed.push(None),
            taken_observed: view.taken_observed.push(Some(control)),
            ..view
        },
        Arrival::Nothing => view,
    };
    match arrival {
        Arrival::Processed(ControlView::ObserveGlobalGraph(info)) => {
            lemma_prune_pairs_keep(noted, info.sequence);
        },
        Arrival::Observed(ControlView::ObserveGlobalGraph(info)) => {
            lemma_prune_pairs_keep(noted, info.sequence);
        },
        _ => {},
    }
    let after = view.receive(arrival);
    assert(after.taken_processed =~= view.taken_processed + processed_outcomes(seq![arrival]));
    assert(after.taken_observed =~= view.taken_observed + observed_outcomes(seq![arrival]));
}

/// What some looks into the channels took out of the channel of executed transactions.
pub open spec fn processed_outcomes(looks: Seq<Arrival>) -> Seq<Option<ControlView>> {
    looks.map_values(
        |arrival: Arrival|
            match arrival {
                Arrival::Processed(control) => Some(control),
                _ => None,
            },
    )
}

/// What some looks into the channels took out of the channel of observations.
pub open spec fn observed_outcomes(looks: Seq<Arrival>) -> Seq<Option<ControlView>>
    decreases looks.len(),
{
    if looks.len() == 0 {
        Seq::empty()
    } else {
        let before = observed_outcomes(looks.drop_last());
        match looks.last() {
            Arrival::Processed(_) => before,
            Arrival::Observed(control) => before.push(Some(control)),
            Arrival::Nothing => before.push(None),
        }
    }
}

proof fn lemma_outcomes_few(arrival: Arrival)
    ensures
        processed_outcomes(Seq::empty()) == Seq::<Option<ControlView>>::empty(),
        observed_outcomes(Seq::empty()) == Seq::<Option<ControlView>>::empty(),
        observed_outcomes(seq![arrival]) == match arrival {
            Arrival::Processed(_) => Seq::empty(),
            Arrival::Observed(control) => seq![Some(control)],
            Arrival::Nothing => seq![None],
        },
{
    assert(processed_outcomes(Seq::empty()) =~= Seq::<Option<ControlView>>::empty());
    let one = seq![arrival];
    assert(one.drop_last() =~= Seq::empty());
    reveal_with_fuel(observed_outcomes, 2);
    assert(observed_outcomes(one) =~= match arrival {
        Arrival::Processed(_) => Seq::empty(),
        Arrival::Observed(control) => seq![Some(control)],
        Arrival::Nothing => seq![None],
    });
}

proof fn lemma_outcomes_add(a: Seq<Arrival>, b: Seq<Arrival>)
    ensures
        processed_outcomes(a + b) == processed_outcomes(a) + processed_outcomes(b),
        observed_outcomes(a + b) == observed_outcomes(a) + observed_outcomes(b),
    decreases b.len(),
{
    assert(processed_outcomes(a + b) =~= processed_outcomes(a) + processed_outcomes(b));
    if b.len() == 0 {
        assert(a + b =~= a);
        assert(observed_outcomes(a) + observed_outcomes(b) =~= observed_outcomes(a));
    } else {
        lemma_outcomes_add(a, b.drop_last());
        assert((a + b).drop_last() =~= a + b.drop_last());
        assert(observed_outcomes(a + b) =~= observed_outcomes(a) + observed_outcomes(b));
    }
}

impl MakerView {
    /// The looks into the channels that a step of working off the queues takes, in their order.
    pub open spec fn step_looks(self, arrivals: (Arrival, Arrival, Arrival)) -> Seq<Arrival> {
        if self.is_idle() && arrivals.0 is Nothing {
            seq![arrivals.0]
        } else {
            let (first, one) = if self.is_idle() {
                (self.receive(arrivals.0), seq![arrivals.0])
            } else {
                (self, Seq::empty())
            };
            let (second, two) = if first.pending_processed.len() == 0 {
                (first.receive(arrivals.1), one + seq![arrivals.1])
            } else {
                (first, one)
            };
            if second.pending_processed.len() == 0 && second.pending_observations.len() == 0 {
                two + seq![arrivals.2]
            } else {
                two
            }
        }
    }

    /// The looks into the channels that working off the queues takes, in their order.
    pub open spec fn looks(self, budget: nat, arrivals: Seq<(Arrival, Arrival, Arrival)>) -> Seq<
        Arrival,
    >
        decreases arrivals.len(),
    {
        if arrivals.len() == 0 {
            Seq::empty()
        } else {
            let (next, spent) = self.drain_step(budget, arrivals[0]);
            self.step_looks(arrivals[0]) + next.looks(
                (budget - spent) as nat,
                arrivals.drop_first(),
            )
        }
    }

    /// `self` is a later state of the channels of `before`: since then, `looks` were taken into them.
    pub open spec fn took(self, before: MakerView, looks: Seq<Arrival>) -> bool {
        &&& self.taken_processed == before.taken_processed + processed_outcomes(looks)
        &&& self.taken_observed == before.taken_observed + observed_outcomes(looks)
    }
}

proof fn lemma_took_more(
    before: MakerView,
    mid: MakerView,
    after: MakerView,
    a: Seq<Arrival>,
    b: Seq<Arrival>,
)
    requires
        mid.took(before, a),
        after.took(mid, b),
    ensures
        after.took(before, a + b),
{
    lemma_outcomes_add(a, b);
    assert(after.taken_processed =~= before.taken_processed + processed_outcomes(a + b));
    assert(after.taken_observed =~= before.taken_observed + observed_outcomes(a + b));
}

proof fn lemma_took_nothing(before: MakerView, after: MakerView)
    requires
        after.keeps_taken(before),
    ensures
        after.took(before, Seq::empty()),
{
    lemma_outcomes_few(Arrival::Nothing);
    assert(before.taken_processed + processed_outcomes(Seq::empty()) =~= before.taken_processed);
    assert(before.taken_observed + observed_outcomes(Seq::empty()) =~= before.taken_observed);
}

proof fn lemma_drain_step_keeps(
    view: MakerView,
    budget: nat,
    arrivals: (Arrival, Arrival, Arrival),
)
    ensures
        view.drain_step(budget, arrivals).0.keeps_batch(view),
        view.drain_step(budget, arrivals).0.took(view, view.step_looks(arrivals)),
{
    lemma_receive_keeps(view, arrivals.0);
    lemma_took_nothing(view, view);
    let first = if view.is_idle() {
        view.receive(arrivals.0)
    } else {
        view
    };
    let one = if view.is_idle() {
        seq![arrivals.0]
    } else {
        Seq::empty()
    };
    assert(first.took(view, one));
    lemma_receive_keeps(first, arrivals.1);
    let (second, two) = if first.pending_processed.len() == 0 {
        (first.receive(arrivals.1), one + seq![arrivals.1])
    } else {
        (first, one)
    };
    assert(second.took(view, two)) by {
        if first.pending_processed.len() == 0 {
            lemma_took_more(view, first, second, one, seq![arrivals.1]);
        }
    }
    lemma_receive_keeps(second, arrivals.2);
    if view.is_idle() && arrivals.0 is Nothing {
    } else if second.pending_processed.len() > 0 {
        let front = second.pending_processed[0];
        let popped = MakerView {
            pending_processed: second.pending_processed.drop_first(),
            ..second
        };
        lemma_process_each_keep(popped, front.take(least(budget, front.len()) as int));
        assert(view.drain_step(budget, arrivals).0.keeps_taken(second));
    } else {
        let (third, three) = if second.pending_observations.len() == 0 {
            (second.receive(arrivals.2), two + seq![arrivals.2])
        } else {
            (second, two)
        };
        assert(third.took(view, three)) by {
            if second.pending_observations.len() == 0 {
                lemma_took_more(view, second, third, two, seq![arrivals.2]);
            }
        }
        if third.pending_observations.len() > 0 {
            let (sequence, front) = third.pending_observations[0];
            let popped = MakerView {
                pending_observations: third.pending_observations.drop_first(),
                ..third
            };
            lemma_observe_pairs_keep(
                popped,
                sequence,
                front.take(least(budget, front.len()) as int),
            );
            assert(view.drain_step(budget, arrivals).0.keeps_taken(third));
        }
    }
}

/// Control work leaves the open batch and the number of the next one alone.
pub proof fn lemma_drains_keep(
    view: MakerView,
    budget: nat,
    arrivals: Seq<(Arrival, Arrival, Arrival)>,
    end: MakerView,
)
    requires
        view.drains_to(budget, arrivals, end),
    ensures
        end.keeps_batch(view),
    decreases arrivals.len(),
{
    if arrivals.len() > 0 {
        let (next, spent) = view.drain_step(budget, arrivals[0]);
        lemma_drain_step_keeps(view, budget, arrivals[0]);
        if spent > 0 {
            lemma_drains_keep(next, (budget - spent) as nat, arrivals.drop_first(), end);
        }
    }
}

/// What is taken out of the channels while the queues are worked off is what the looks into them
/// gave, in their order; each message of it was queued, since a look queues what it gives.
pub proof fn lemma_drains_take(
    view: MakerView,
    budget: nat,
    arrivals: Seq<(Arrival, Arrival, Arrival)>,
    end: MakerView,
)
    requires
        view.drains_to(budget, arrivals, end),
    ensures
        end.took(view, view.looks(budget, arrivals)),
    decreases arrivals.len(),
{
    if arrivals.len() == 0 {
        lemma_took_nothing(view, end);
    } else {
        let (next, spent) = view.drain_step(budget, arrivals[0]);
        let rest = arrivals.drop_first();
        lemma_drain_step_keeps(view, budget, arrivals[0]);
        if spent == 0 {
            lemma_took_nothing(next, end);
            assert(rest =~= Seq::empty());
        } else {
            lemma_drains_take(next, (budget - spent) as nat, rest, end);
        }
        lemma_took_more(
            view,
            next,
            end,
            view.step_looks(arrivals[0]),
            next.looks((budget - spent) as nat, rest),
        );
    }
}

/// Giving up pairs leaves alone what waits.
pub(crate) proof fn lemma_prune_pairs_pending(view: MakerView, current: u64)
    ensures
        view.prune_pairs(current).pending_processed == view.pending_processed,
        view.prune_pairs(current).pending_observations == view.pending_observations,
    decreases view.pair_fifo.len(),
{
    if view.is_overdue(current) {
        lemma_prune_pairs_pending(view.drop_oldest_pair(), current);
    }
}

/// `batch` is what is made of the open batch when it is sealed.
pub open spec fn is_sealed_batch(view: MakerView, batch: BatchView) -> bool {
    let list = standard_list(view.current);
    &&& batch.author == view.name
    &&& batch.sequence == view.next_sequence
    &&& batch.transactions == view.current
    &&& ascending_pairs(batch.edges)
    &&& batch.edges.to_set() == view.batch_edges(list)
    &&& ascending_pairs(batch.missing_edges)
    &&& batch.missing_edges.to_set() == view.batch_missing(list)
}

/// A standard transaction is staged once: a second one with its identifier is a duplicate.
pub proof fn lemma_staged_is_duplicate(view: MakerView, tx: Seq<u8>, again: Seq<u8>)
    requires
        standard_id(tx) is Some,
        standard_id(again) == standard_id(tx),
    ensures
        view.stage(tx).is_duplicate(again),
{
}

/// Sealing a standard transaction keeps it from being staged again until it is executed.
pub proof fn lemma_sealed_is_duplicate(view: MakerView, tx: Seq<u8>)
    requires
        view.valid(),
        standard_id(tx) is Some,
        view.staged.contains(standard_id(tx)->0),
    ensures
        view.seal().is_duplicate(tx),
        !view.seal().staged.contains(standard_id(tx)->0),
{
    let id = standard_id(tx)->0;
    let list = standard_list(view.current);
    lemma_seal(view);
    lemma_standard_list(view.current);
    lemma_prune_frontiers(view, list, 0);
    let cleared = MakerView {
        current: Seq::empty(),
        staged: Set::empty(),
        size: 0,
        last_writer: write_all(view.last_writer, list),
        next_sequence: (view.next_sequence + 1) as u64,
        ..view.prune_frontiers(list)
    };
    assert(cleared.staged =~= standard_ids(cleared.current));
    assert forall|i: int| 0 <= i < list.len() implies !cleared.known.contains_key(
        (#[trigger] list[i]).0,
    ) by {
        assert(view.staged.contains(list[i].0));
        assert(!view.known.dom().contains(list[i].0));
    }
    lemma_record_all(cleared, list);
    lemma_lists_all(view.current, id);
    let i = choose|i: int| 0 <= i < list.len() && (#[trigger] list[i]).0 == id;
    assert(view.seal().known.contains_key(id));
}

/// Every standard transaction is listed.
proof fn lemma_lists_all(txs: Seq<Seq<u8>>, id: u64)
    requires
        standard_ids(txs).contains(id),
    ensures
        exists|i: int| 0 <= i < standard_list(txs).len() && (#[trigger] standard_list(txs)[i]).0 == id,
    decreases txs.len(),
{
    let list = standard_list(txs);
    let fewer = txs.drop_last();
    let shorter = standard_list(fewer);
    let k = choose|k: int| 0 <= k < txs.len() && standard_id(#[trigger] txs[k]) == Some(id);
    if k < fewer.len() {
        assert(fewer[k] == txs[k]);
        lemma_lists_all(fewer, id);
        let i = choose|i: int| 0 <= i < shorter.len() && (#[trigger] shorter[i]).0 == id;
        assert(list[i] == shorter[i]);
    } else {
        assert(list[shorter.len() as int].0 == id);
    }
}

/// An executed transaction is known as executed; a pair that it is part of is not observed any
/// more.
pub proof fn lemma_processed_is_settled(view: MakerView, id: u64, other: u64, sequence: u64)
    requires
        view.valid(),
        forall|key: u8| (#[trigger] queue_of(view.unprocessed, key)).len() <= usize::MAX,
    ensures
        view.process(seq![id]).tx_state(id) == TxState::Processed,
        view.process(seq![id]).observe_pair(sequence, (id, other)) == view.process(seq![id]),
        view.process(seq![id]).observe_pair(sequence, (other, id)) == view.process(seq![id]),
{
    let ids = seq![id];
    let nothing = ids.drop_last();
    assert(nothing =~= Seq::empty());
    assert(view.process_each(nothing) == view);
    assert(ids.last() == id);
    lemma_process_one(view, id);
}

/// What a sealed batch leaves open is the order of one of its own transactions and an unprocessed
/// one of an earlier batch, and no edge says anything of it.
pub proof fn lemma_sealed_missing_pairs(view: MakerView, batch: BatchView, pair: (u64, u64))
    requires
        view.valid(),
        is_sealed_batch(view, batch),
        batch.missing_edges.contains(pair),
    ensures
        view.known.contains_key(pair.0),
        standard_ids(batch.transactions).contains(pair.1),
        !batch.edges.contains(pair),
{
    let list = standard_list(view.current);
    lemma_standard_list(view.current);
    assert(batch.missing_edges.to_set().contains(pair));
    let j = choose|j: int|
        0 <= j < list.len() && pair.1 == (#[trigger] list[j]).0 && pair.0 != pair.1
            && view.dependency(list[j].1).missing_predecessor == Some(pair.0);
    lemma_dependency(view, list[j].1);
    if batch.edges.contains(pair) {
        assert(batch.edges.to_set().contains(pair));
        let k = choose|k: int|
            0 <= k < list.len() && pair.1 == (#[trigger] list[k]).0 && view.follows(
                list,
                k,
                pair.0,
            );
        assert(k == j) by {
            if k < j {
                assert(list[k].0 != list[j].0);
            } else if j < k {
                assert(list[j].0 != list[k].0);
            }
        }
        if writes_before(list, j, pair.0) {
            let i = choose|i: int| 0 <= i < j && #[trigger] list[i] == (pair.0, list[j].1);
            assert(view.staged.contains(list[i].0));
            assert(!view.known.dom().contains(pair.0));
        }
    }
}

/// Within a sealed batch, every later transaction follows on every earlier one that writes the
/// same state. It follows on another one only if that was the last writer of its state before.
pub proof fn lemma_sealed_edges_within(view: MakerView, batch: BatchView, i: int, j: int)
    requires
        view.valid(),
        is_sealed_batch(view, batch),
        0 <= i < j < standard_list(view.current).len(),
    ensures
        standard_list(view.current)[i].1 == standard_list(view.current)[j].1
            ==> batch.edges.contains(
            (standard_list(view.current)[i].0, standard_list(view.current)[j].0),
        ),
        batch.edges.contains(
            (standard_list(view.current)[i].0, standard_list(view.current)[j].0),
        ) ==> standard_list(view.current)[i].1 == standard_list(view.current)[j].1
            || view.dependency(standard_list(view.current)[j].1).edge_predecessor == Some(
            standard_list(view.current)[i].0,
        ),
{
    let list = standard_list(view.current);
    lemma_standard_list(view.current);
    let e = (list[i].0, list[j].0);
    assert(list[i].0 != list[j].0);
    if list[i].1 == list[j].1 {
        assert(list[i] == (e.0, list[j].1));
        assert(writes_before(list, j, e.0));
        assert(view.follows(list, j, e.0));
        assert(batch.edges.to_set().contains(e));
    }
    if batch.edges.contains(e) {
        assert(batch.edges.to_set().contains(e));
        let k = choose|k: int|
            0 <= k < list.len() && e.1 == (#[trigger] list[k]).0 && view.follows(list, k, e.0);
        assert(k == j) by {
            if k < j {
                assert(list[k].0 != list[j].0);
            } else if j < k {
                assert(list[j].0 != list[k].0);
            }
        }
        if writes_before(list, j, e.0) {
            let l = choose|l: int| 0 <= l < j && #[trigger] list[l] == (e.0, list[j].1);
            assert(l == i) by {
                if l < i {
                    assert(list[l].0 != list[i].0);
                } else if i < l {
                    assert(list[i].0 != list[l].0);
                }
            }
        }
    }
}

/// Of the transactions of other batches, those of a sealed batch follow only on the last writer of
/// their state.
pub proof fn lemma_sealed_edges_across(view: MakerView, batch: BatchView, e: (u64, u64))
    requires
        view.valid(),
        is_sealed_batch(view, batch),
        batch.edges.contains(e),
        !standard_ids(batch.transactions).contains(e.0),
    ensures
        exists|j: int|
            0 <= j < standard_list(view.current).len() && (#[trigger] standard_list(
                view.current,
            )[j]).0 == e.1 && view.last_writer.contains_key(standard_list(view.current)[j].1)
                && view.last_writer[standard_list(view.current)[j].1] == e.0,
{
    let list = standard_list(view.current);
    lemma_standard_list(view.current);
    assert(batch.edges.to_set().contains(e));
    let j = choose|j: int|
        0 <= j < list.len() && e.1 == (#[trigger] list[j]).0 && view.follows(list, j, e.0);
    if writes_before(list, j, e.0) {
        let i = choose|i: int| 0 <= i < j && #[trigger] list[i] == (e.0, list[j].1);
        assert(view.staged.contains(list[i].0));
    }
}

/// The smaller of two numbers.
pub open spec fn least(a: nat, b: nat) -> nat {
    if a <= b {
        a
    } else {
        b
    }
}

/// The queue of a state; it is empty where there is none.
pub open spec fn queue_of(queues: Map<u8, Seq<u64>>, key: u8) -> Seq<u64> {
    if queues.contains_key(key) {
        queues[key]
    } else {
        Seq::empty()
    }
}

/// The partners of a transaction.
pub open spec fn partners_of(partners: Map<u64, Set<u64>>, id: u64) -> Set<u64> {
    if partners.contains_key(id) {
        partners[id]
    } else {
        Set::empty()
    }
}

/// The pairs of `id` and one of `others`, the smaller identifier first.
pub open spec fn pairs_with(id: u64, others: Set<u64>) -> Set<(u64, u64)> {
    Set::new(|p: (u64, u64)| exists|y: u64| is_pair_with(id, others, y, p))
}

/// `p` is the pair of `id` and `y`, one of `others`.
pub open spec fn is_pair_with(id: u64, others: Set<u64>, y: u64, p: (u64, u64)) -> bool {
    others.contains(y) && p == canonical_pair(id, y)
}

/// The pairs with one more transaction.
pub proof fn lemma_pairs_with(id: u64, others: Set<u64>, y: u64)
    ensures
        pairs_with(id, others.insert(y)) == pairs_with(id, others).insert(canonical_pair(id, y)),
        pairs_with(id, others).contains(canonical_pair(id, y)) <==> others.contains(y),
{
    let more = others.insert(y);
    let pair = canonical_pair(id, y);
    assert(is_pair_with(id, more, y, pair));
    assert forall|p: (u64, u64)| pairs_with(id, more).contains(p) <==> pairs_with(
        id,
        others,
    ).insert(pair).contains(p) by {
        if pairs_with(id, others).contains(p) {
            let z = choose|z: u64| is_pair_with(id, others, z, p);
            assert(is_pair_with(id, more, z, p));
        }
        if pairs_with(id, more).contains(p) {
            let z = choose|z: u64| is_pair_with(id, more, z, p);
            if z != y {
                assert(is_pair_with(id, others, z, p));
            }
        }
    }
    assert(pairs_with(id, more) =~= pairs_with(id, others).insert(pair));
    if pairs_with(id, others).contains(pair) {
        let z = choose|z: u64| is_pair_with(id, others, z, pair);
        assert(z == y);
    }
    if others.contains(y) {
        assert(is_pair_with(id, others, y, pair));
    }
}

/// The count of a state; it is `0` where there is none.
pub open spec fn stale_of(stale: Map<u8, usize>, key: u8) -> int {
    if stale.contains_key(key) {
        stale[key] as int
    } else {
        0
    }
}

} // verus!
