//! The executor: it executes globally ordered batches once everything that has to go before
//! them was executed, and reports back to the batch maker.

use std::collections::{HashMap, HashSet, VecDeque};
use tokio::sync::mpsc::Sender;
use vstd::prelude::*;
use crate::batch::{payloads, Batch, BatchView, Digest, WorkerId};
use crate::channels::{refused_by, sent_through, try_deliver, Delivery};
use crate::control::{
    describes, list_standard_ids, BatchMakerControl, ControlView, GlobalGraphInfo, InfoView,
};
use crate::digests::DigestSet;
use crate::execution::{
    executed_transactions, external_dependencies, internal_pairs, order_for_execution, summarize,
    MissingEdgeSummary,
};
use crate::executor_model::{
    all_processed, ascending_list, bump, lemma_execute, lemma_push, lemma_retry_first_len,
    lemma_retry_front, lemma_track, lemma_waiting_push, track, trimmed, untrack, ExecutedView,
    ExecutorView, PendingView, MAX_PENDING_BATCHES_SOFT, MAX_PENDING_OBSERVATIONS,
    MAX_PENDING_SEQUENCE_LAG_SOFT, MAX_PROCESSED_TX_IDS,
};
use crate::ordered::{ascending, lemma_ascending_unique};
use crate::transaction::{standard_ids, Transaction};

verus! {

/// How many observations are handed over before a batch is executed.
pub const OBSERVATION_FLUSH_BUDGET: usize = 16;

/// How many observations are handed over while there is nothing to execute.
pub const OBSERVATION_IDLE_FLUSH_BUDGET: usize = 256;

/// Of how many events one is logged.
pub const HEALTH_LOG_INTERVAL: u64 = 64;

/// Of how many events one is logged while a benchmark runs.
pub const BENCHMARK_HEALTH_LOG_INTERVAL: u64 = 1_024;

/// A batch that waits for transactions of other batches.
pub struct PendingBatch {
    pub digest: Digest,
    pub batch: Batch,
    pub external_dependencies: Vec<u64>,
    pub same_batch_pair_count: usize,
    pub first_seen_sequence: u64,
    pub stalled_rounds: u32,
}

impl View for PendingBatch {
    type V = PendingView;

    open spec fn view(&self) -> PendingView {
        PendingView {
            digest: self.digest,
            batch: self.batch@,
            dependencies: self.external_dependencies@,
            pair_count: self.same_batch_pair_count,
            first_seen: self.first_seen_sequence,
            stalled_rounds: self.stalled_rounds,
        }
    }
}

/// A batch that was executed.
pub struct ExecutedBatch {
    pub digest: Digest,
    pub transactions: Vec<Transaction>,
    /// Its standard transactions, to be reported as executed.
    pub processed_tx_ids: Vec<u64>,
}

impl View for ExecutedBatch {
    type V = ExecutedView;

    open spec fn view(&self) -> ExecutedView {
        ExecutedView {
            digest: self.digest,
            transactions: payloads(self.transactions@),
            processed: self.processed_tx_ids@,
        }
    }
}

impl ExecutedBatch {
    /// What the batch maker is to be told of the batch: which transactions were executed, if there
    /// are any standard ones.
    pub fn feedback(&self) -> (control: Option<BatchMakerControl>)
        ensures
            control is None <==> self@.processed.len() == 0,
            control matches Some(message) ==> (message@ matches ControlView::MarkProcessed(ids)
                && ascending(ids) && ids.to_set() == self@.processed.to_set() && (ascending(
                self@.processed,
            ) ==> ids == self@.processed)),
    {
        if self.processed_tx_ids.len() == 0 {
            None
        } else {
            let message = BatchMakerControl::mark_processed(copy_ids(&self.processed_tx_ids));
            proof {
                if let ControlView::MarkProcessed(ids) = message@ {
                    if ascending(self@.processed) {
                        lemma_ascending_unique(ids, self@.processed);
                    }
                }
            }
            Some(message)
        }
    }
}

/// The contents of a list of executed batches.
pub open spec fn executed_views(batches: Seq<ExecutedBatch>) -> Seq<ExecutedView> {
    batches.map_values(|batch: ExecutedBatch| batch@)
}

/// Executes globally ordered batches.
pub struct Executor {
    pub id: WorkerId,
    pub tx_batch_observation: Sender<BatchMakerControl>,
    pub executed: DigestSet,
    pub processed_tx_ids: HashSet<u64>,
    pub processed_fifo: VecDeque<u64>,
    pub pending_batches: VecDeque<PendingBatch>,
    pub pending_dependency_counts: HashMap<u64, usize>,
    pub latest_sequence: u64,
    pub pending_observations: VecDeque<GlobalGraphInfo>,
    pub dropped_observations: u64,
    pub pending_health_events: u64,
    pub processed_trim_blocked_events: u64,
    pub same_batch_fallback_batches: u64,
    pub same_batch_fallback_pairs: u64,
}

impl View for Executor {
    type V = ExecutorView;

    open spec fn view(&self) -> ExecutorView {
        ExecutorView {
            id: self.id,
            executed: self.executed@,
            processed: self.processed_tx_ids@,
            processed_fifo: self.processed_fifo@,
            pending: self.pending_batches@.map_values(|pending: PendingBatch| pending@),
            counts: self.pending_dependency_counts@,
            latest: self.latest_sequence,
            sent: sent_through(self.tx_batch_observation),
            refused: refused_by(self.tx_batch_observation),
            observations: self.pending_observations@.map_values(|info: GlobalGraphInfo| info@),
            dropped_observations: self.dropped_observations,
            health_events: self.pending_health_events,
            trim_blocked_events: self.processed_trim_blocked_events,
            fallback_batches: self.same_batch_fallback_batches,
            fallback_pairs: self.same_batch_fallback_pairs,
        }
    }
}

/// Whether the event with the number `count` is logged: the first, and one in an interval.
pub fn should_log_event(count: u64, benchmark: bool) -> (log: bool)
    ensures
        log == (count == 1 || count as int % (if benchmark {
            BENCHMARK_HEALTH_LOG_INTERVAL
        } else {
            HEALTH_LOG_INTERVAL
        }) as int == 0),
        !benchmark ==> (log <==> count == 1 || count as int % 64 == 0),
        benchmark ==> (log <==> count == 1 || count as int % 1_024 == 0),
{
    let interval: u64 = if benchmark {
        BENCHMARK_HEALTH_LOG_INTERVAL
    } else {
        HEALTH_LOG_INTERVAL
    };
    count == 1 || count % interval == 0
}

/// A counter after more events.
fn add_events(counter: u64, by: u64) -> (more: u64)
    ensures
        more == bump(counter, by as int),
{
    counter.saturating_add(by)
}

/// An ascending list is the ascending list of its members.
proof fn lemma_ascending_list(list: Seq<u64>, set: Set<u64>)
    requires
        ascending(list),
        list.to_set() == set,
    ensures
        list == ascending_list(set),
{
    lemma_ascending_unique(list, ascending_list(set));
}

impl Executor {
    /// An executor that has executed nothing.
    pub fn new(id: WorkerId, tx_batch_observation: Sender<BatchMakerControl>) -> (executor: Self)
        ensures
            executor@ == (ExecutorView {
                id,
                executed: Set::empty(),
                processed: Set::empty(),
                processed_fifo: Seq::empty(),
                pending: Seq::empty(),
                counts: Map::empty(),
                latest: 0,
                sent: sent_through(tx_batch_observation),
                refused: refused_by(tx_batch_observation),
                observations: Seq::empty(),
                dropped_observations: 0,
                health_events: 0,
                trim_blocked_events: 0,
                fallback_batches: 0,
                fallback_pairs: 0,
            }),
            executor@.valid(),
    {
        let executor = Executor {
            id,
            tx_batch_observation,
            executed: DigestSet::new(),
            processed_tx_ids: HashSet::new(),
            processed_fifo: VecDeque::new(),
            pending_batches: VecDeque::new(),
            pending_dependency_counts: HashMap::new(),
            latest_sequence: 0,
            pending_observations: VecDeque::new(),
            dropped_observations: 0,
            pending_health_events: 0,
            processed_trim_blocked_events: 0,
            same_batch_fallback_batches: 0,
            same_batch_fallback_pairs: 0,
        };
        assert(executor@.pending =~= Seq::empty());
        assert(executor@.observations =~= Seq::empty());
        assert(executor@.processed_fifo.to_set() =~= executor@.processed);
        executor
    }

    /// Whether an ordered batch is to be executed: it is of our worker, and was not taken on
    /// before.
    pub fn take_on(&mut self, digest: Digest, worker_id: WorkerId) -> (taken_on: bool)
        requires
            old(self)@.valid(),
        ensures
            final(self)@.valid(),
            taken_on == (worker_id == old(self)@.id && !old(self)@.executed.contains(digest)),
            final(self)@ == if worker_id == old(self)@.id {
                ExecutorView { executed: old(self)@.executed.insert(digest), ..old(self)@ }
            } else {
                old(self)@
            },
    {
        if worker_id != self.id {
            return false;
        }
        let ghost before = self@;
        let added = self.executed.insert(digest);
        assert(self@.pending == before.pending && self@.counts == before.counts);
        added
    }

    /// Whether all dependencies have been executed.
    pub fn batch_ready(external_dependencies: &[u64], processed_tx_ids: &HashSet<u64>) -> (ready:
        bool)
        ensures
            ready == all_processed(external_dependencies@, processed_tx_ids@),
            ready <==> forall|i: int|
                0 <= i < external_dependencies@.len() ==> processed_tx_ids@.contains(
                    #[trigger] external_dependencies@[i],
                ),
    {
        for i in 0..external_dependencies.len()
            invariant
                forall|j: int|
                    0 <= j < i ==> processed_tx_ids@.contains(#[trigger] external_dependencies@[j]),
        {
            if !processed_tx_ids.contains(&external_dependencies[i]) {
                assert(!processed_tx_ids@.contains(external_dependencies@[i as int]));
                return false;
            }
        }
        true
    }

    /// The transactions of a batch as they are executed.
    pub fn execute_batch(batch: &Batch) -> (ordered: Vec<Transaction>)
        ensures
            payloads(ordered@) == executed_transactions(batch@),
    {
        order_for_execution(batch)
    }

    /// The standard transactions among those that were executed, in ascending order.
    pub fn collect_processed_tx_ids(transactions: &[Transaction]) -> (tx_ids: Vec<u64>)
        ensures
            ascending(tx_ids@),
            tx_ids@.to_set() == standard_ids(payloads(transactions@)),
    {
        list_standard_ids(transactions)
    }

    /// What the missing pairs of a batch come to.
    pub fn summarize_missing_edges(batch: &Batch) -> (summary: MissingEdgeSummary)
        ensures
            ascending(summary.external_dependencies@),
            summary.external_dependencies@.to_set() == external_dependencies(batch@),
            summary.same_batch_pair_count == internal_pairs(batch@).len(),
    {
        summarize(batch)
    }

    fn record_observation_drops(&mut self, lost: u64)
        ensures
            final(self)@ == old(self)@.lose_observations(lost as int),
    {
        self.dropped_observations = add_events(self.dropped_observations, lost);
    }

    fn buffer_observation(&mut self, info: GlobalGraphInfo)
        ensures
            final(self)@ == old(self)@.keep_back(info@),
    {
        let ghost before = self@;
        let ghost view = info@;
        let full = self.pending_observations.len() >= MAX_PENDING_OBSERVATIONS;
        if full {
            self.pending_observations.pop_front();
            assert(self@.observations =~= before.observations.drop_first());
            self.record_observation_drops(1);
        }
        let ghost kept = self@.observations;
        self.pending_observations.push_back(info);
        assert(self@.observations =~= kept.push(view));
    }

    /// Takes in what became of an observation that was to be handed over.
    pub fn note_delivery(&mut self, delivery: Delivery)
        requires
            old(self)@.valid(),
            delivery matches Delivery::Full(message) ==> message is ObserveGlobalGraph,
            delivery matches Delivery::Closed(message) ==> message is ObserveGlobalGraph,
        ensures
            final(self)@.valid(),
            final(self)@ == match delivery {
                Delivery::Sent => old(self)@,
                Delivery::Full(message) => match message@ {
                    ControlView::ObserveGlobalGraph(info) => old(self)@.keep_back(info),
                    ControlView::MarkProcessed(_) => old(self)@,
                },
                Delivery::Closed(_) => old(self)@.lose_observations(1),
            },
    {
        match delivery {
            Delivery::Sent => {},
            Delivery::Full(message) => {
                if let BatchMakerControl::ObserveGlobalGraph(info) = message {
                    self.buffer_observation(info);
                }
            },
            Delivery::Closed(_) => {
                self.record_observation_drops(1);
            },
        }
    }

    /// Tells the batch maker of a globally ordered batch with missing pairs, if that is possible
    /// without waiting. The observation is kept back if the channel is full, and lost if it is
    /// closed.
    pub fn observe_global_batch_best_effort(&mut self, batch: &Batch)
        requires
            old(self)@.valid(),
        ensures
            final(self)@.valid(),
            may_observe(old(self)@, batch@, final(self)@),
    {
        if batch.missing_edges.len() == 0 {
            return ;
        }
        let ghost before = self@;
        let control = BatchMakerControl::observe_global_batch(batch);
        let ghost view = control@;
        let delivery = try_deliver(&mut self.tx_batch_observation, control);
        proof {
            if let ControlView::ObserveGlobalGraph(info) = view {
                assert(describes(info, batch@));
                assert(delivery is Sent ==> self@ == before.hand_over(info));
                assert(delivery is Full ==> self@ == before.find_full(info));
                assert(delivery is Closed ==> self@ == before.find_closed(info));
            }
        }
        self.note_delivery(delivery);
    }

    /// Takes in what became of the oldest observation, which was taken out to be handed over. Says
    /// whether the next one can follow.
    pub fn note_flush(&mut self, delivery: Delivery) -> (go_on: bool)
        requires
            delivery matches Delivery::Full(message) ==> message is ObserveGlobalGraph,
        ensures
            go_on == (delivery is Sent),
            final(self)@ == match delivery {
                Delivery::Sent => old(self)@,
                Delivery::Full(message) => match message@ {
                    ControlView::ObserveGlobalGraph(info) => ExecutorView {
                        observations: seq![info] + old(self)@.observations,
                        ..old(self)@
                    },
                    ControlView::MarkProcessed(_) => old(self)@,
                },
                Delivery::Closed(_) => ExecutorView {
                    observations: Seq::empty(),
                    ..old(self)@.lose_observations(old(self)@.observations.len() as int + 1)
                },
            },
    {
        let ghost before = self@;
        match delivery {
            Delivery::Sent => true,
            Delivery::Full(message) => {
                if let BatchMakerControl::ObserveGlobalGraph(info) = message {
                    let ghost view = info@;
                    self.pending_observations.push_front(info);
                    assert(self@.observations =~= seq![view] + before.observations);
                }
                false
            },
            Delivery::Closed(_) => {
                let left = self.pending_observations.len();
                assert(left == before.observations.len());
                self.record_observation_drops((left as u64).saturating_add(1));
                self.pending_observations.clear();
                assert(self@.observations =~= Seq::empty());
                false
            },
        }
    }

    /// Hands over observations that were kept back, oldest first, up to `budget` of them. It stops
    /// where the channel is full; where it is closed, all that are left are given up.
    pub fn flush_observation_backlog(&mut self, budget: usize)
        requires
            old(self)@.valid(),
        ensures
            final(self)@.valid(),
            exists|n: int|
                0 <= n <= budget && n <= old(self)@.observations.len() && #[trigger] flushed(
                    old(self)@,
                    final(self)@,
                    budget as int,
                    n,
                ),
    {
        let ghost start = self@;
        let mut sent: usize = 0;
        proof {
            assert(start.observations.skip(0) =~= start.observations);
            assert(start.hand_over_oldest(0).sent =~= start.sent);
        }
        while sent < budget
            invariant
                sent <= budget,
                sent <= start.observations.len(),
                start.valid(),
                start == old(self)@,
                self@ == start.hand_over_oldest(sent as int),
            decreases budget - sent,
        {
            let ghost at = self@;
            let ghost queue = self.pending_observations@;
            assert(at.observations.len() == queue.len());
            let info = match self.pending_observations.pop_front() {
                Some(info) => info,
                None => {
                    proof {
                        assert(self@.observations =~= at.observations);
                        assert(at.observations.len() == 0);
                        assert(flushed(start, self@, budget as int, sent as int));
                        lemma_same_queue(start, self@);
                    }
                    return ;
                },
            };
            proof {
                assert(info == queue[0]);
                assert(at.observations[0] == info@);
                assert(info@ == start.observations[sent as int]);
                assert(self@.observations =~= at.observations.drop_first());
                assert(self@.observations =~= start.observations.skip(sent + 1));
            }
            let ghost view = info@;
            let control = BatchMakerControl::ObserveGlobalGraph(info);
            let delivery = try_deliver(&mut self.tx_batch_observation, control);
            let ghost popped = self@;
            if !self.note_flush(delivery) {
                proof {
                    let stopped = start.hand_over_oldest(sent as int);
                    assert(delivery is Full ==> seq![view] + popped.observations
                        =~= stopped.observations);
                    assert(delivery is Full ==> self@ == stopped.find_full(view));
                    assert(delivery is Closed ==> self@ == (ExecutorView {
                        observations: Seq::empty(),
                        ..stopped.find_closed(view).lose_observations(
                            start.observations.len() - sent,
                        )
                    }));
                    assert(flushed(start, self@, budget as int, sent as int));
                    lemma_same_queue(start, self@);
                }
                return ;
            }
            assert(self@.sent =~= start.hand_over_oldest(sent + 1).sent);
            sent += 1;
        }
        proof {
            assert(flushed(start, self@, budget as int, sent as int));
            lemma_same_queue(start, self@);
        }
    }

    /// Trims what is remembered to `cap`, but forgets nothing that a queued batch waits for.
    pub fn trim_processed_to_cap(&mut self, cap: usize)
        ensures
            final(self)@ == old(self)@.trim(cap as nat),
    {
        let ghost start = self@;
        let ghost needed = self@.counts.dom();
        let ghost goal = trimmed(start.processed_fifo, start.processed, needed, cap as nat, 0);
        let mut scanned: usize = 0;
        while self.processed_fifo.len() > cap && scanned < self.processed_fifo.len()
            invariant
                needed == start.counts.dom(),
                self@ == (ExecutorView {
                    processed_fifo: self@.processed_fifo,
                    processed: self@.processed,
                    ..start
                }),
                goal == trimmed(
                    self@.processed_fifo,
                    self@.processed,
                    needed,
                    cap as nat,
                    scanned as nat,
                ),
            decreases self@.processed_fifo.len(), self@.processed_fifo.len() - scanned,
        {
            let oldest = self.processed_fifo.pop_front().unwrap();
            if self.pending_dependency_counts.contains_key(&oldest) {
                self.processed_fifo.push_back(oldest);
                scanned += 1;
            } else {
                self.processed_tx_ids.remove(&oldest);
                scanned = 0;
            }
        }
        if self.processed_fifo.len() > cap {
            self.processed_trim_blocked_events = add_events(self.processed_trim_blocked_events, 1);
        }
    }

    fn remember_processed(&mut self, tx_ids: &Vec<u64>)
        ensures
            final(self)@ == old(self)@.remember(tx_ids@),
    {
        let ghost start = self@;
        for i in 0..tx_ids.len()
            invariant
                self@ == start.remember_each(tx_ids@.take(i as int)),
        {
            assert(tx_ids@.take(i + 1).drop_last() =~= tx_ids@.take(i as int));
            let tx_id = tx_ids[i];
            if !self.processed_tx_ids.contains(&tx_id) {
                self.processed_tx_ids.insert(tx_id);
                self.processed_fifo.push_back(tx_id);
            }
        }
        assert(tx_ids@.take(tx_ids@.len() as int) =~= tx_ids@);
        self.trim_processed_to_cap(MAX_PROCESSED_TX_IDS);
    }

    fn record_same_batch_fallback(&mut self, same_batch_pair_count: usize)
        ensures
            final(self)@ == old(self)@.count_fallback(same_batch_pair_count),
    {
        if same_batch_pair_count == 0 {
            return ;
        }
        self.same_batch_fallback_batches = add_events(self.same_batch_fallback_batches, 1);
        self.same_batch_fallback_pairs = add_events(
            self.same_batch_fallback_pairs,
            same_batch_pair_count as u64,
        );
    }

    fn execute_and_feedback(
        &mut self,
        digest: Digest,
        batch: &Batch,
        same_batch_pair_count: usize,
    ) -> (executed: ExecutedBatch)
        ensures
            (final(self)@, executed@) == old(self)@.execute(digest, batch@, same_batch_pair_count),
    {
        self.record_same_batch_fallback(same_batch_pair_count);
        let transactions = Self::execute_batch(batch);
        let processed_tx_ids = Self::collect_processed_tx_ids(&transactions);
        proof {
            lemma_ascending_list(
                processed_tx_ids@,
                standard_ids(executed_transactions(batch@)),
            );
        }
        self.remember_processed(&processed_tx_ids);
        ExecutedBatch { digest, transactions, processed_tx_ids }
    }

    fn maybe_log_pending_queue_health(&mut self)
        ensures
            final(self)@ == old(self)@.check_health(),
    {
        let ghost view = self@;
        let mut unhealthy = self.pending_batches.len() > MAX_PENDING_BATCHES_SOFT;
        for i in 0..self.pending_batches.len()
            invariant
                view == self@,
                view.pending.len() == self.pending_batches@.len(),
                unhealthy <==> self.pending_batches@.len() > MAX_PENDING_BATCHES_SOFT || exists|
                    j: int,
                |
                    0 <= j < i && view.latest - (#[trigger] view.pending[j]).first_seen
                        > MAX_PENDING_SEQUENCE_LAG_SOFT,
        {
            assert(view.pending[i as int] == self.pending_batches@[i as int]@);
            if self.latest_sequence.saturating_sub(self.pending_batches[i].first_seen_sequence)
                > MAX_PENDING_SEQUENCE_LAG_SOFT {
                unhealthy = true;
            }
        }
        assert(unhealthy <==> view.is_unhealthy());
        if unhealthy {
            self.pending_health_events = add_events(self.pending_health_events, 1);
        }
    }

    fn track_pending_dependencies(&mut self, dependencies: &Vec<u64>)
        requires
            dependencies@.no_duplicates(),
            forall|id: u64|
                old(self)@.counts.contains_key(id) ==> #[trigger] old(self)@.counts[id] < usize::MAX,
        ensures
            final(self)@ == (ExecutorView {
                counts: track(old(self)@.counts, dependencies@),
                ..old(self)@
            }),
    {
        let ghost start = self@;
        for i in 0..dependencies.len()
            invariant
                dependencies@.no_duplicates(),
                forall|id: u64|
                    start.counts.contains_key(id) ==> #[trigger] start.counts[id] < usize::MAX,
                self@ == (ExecutorView {
                    counts: track(start.counts, dependencies@.take(i as int)),
                    ..start
                }),
        {
            let id = dependencies[i];
            proof {
                let done = dependencies@.take(i as int);
                assert(dependencies@.take(i + 1).drop_last() =~= done);
                assert(!done.contains(id)) by {
                    if done.contains(id) {
                        let k = choose|k: int| 0 <= k < done.len() && done[k] == id;
                        assert(dependencies@[k] == dependencies@[i as int]);
                    }
                }
                lemma_track(start.counts, done, id);
            }
            let count: usize = match self.pending_dependency_counts.get(&id) {
                Some(count) => *count + 1,
                None => 1,
            };
            self.pending_dependency_counts.insert(id, count);
        }
        assert(dependencies@.take(dependencies@.len() as int) =~= dependencies@);
    }

    fn untrack_pending_dependencies(&mut self, dependencies: &Vec<u64>)
        ensures
            final(self)@ == (ExecutorView {
                counts: untrack(old(self)@.counts, dependencies@),
                ..old(self)@
            }),
    {
        let ghost start = self@;
        for i in 0..dependencies.len()
            invariant
                self@ == (ExecutorView {
                    counts: untrack(start.counts, dependencies@.take(i as int)),
                    ..start
                }),
        {
            let id = dependencies[i];
            assert(dependencies@.take(i + 1).drop_last() =~= dependencies@.take(i as int));
            let count: usize = match self.pending_dependency_counts.get(&id) {
                Some(count) => *count,
                None => 0,
            };
            if count <= 1 {
                let ghost counts = self@.counts;
                self.pending_dependency_counts.remove(&id);
                assert(!counts.contains_key(id) ==> counts.remove(id) =~= counts);
            } else {
                self.pending_dependency_counts.insert(id, count - 1);
            }
        }
        assert(dependencies@.take(dependencies@.len() as int) =~= dependencies@);
    }

    fn enqueue_pending_batch(&mut self, digest: Digest, batch: Batch, summary: MissingEdgeSummary)
        requires
            old(self)@.valid(),
            summary.external_dependencies@.no_duplicates(),
        ensures
            final(self)@.valid(),
            final(self)@ == (ExecutorView {
                pending: old(self)@.pending.push(
                    PendingView {
                        digest,
                        batch: batch@,
                        dependencies: summary.external_dependencies@,
                        pair_count: summary.same_batch_pair_count,
                        first_seen: old(self)@.latest,
                        stalled_rounds: 0,
                    },
                ),
                counts: track(old(self)@.counts, summary.external_dependencies@),
                ..old(self)@
            }).check_health(),
    {
        let ghost start = self@;
        let dependencies = copy_ids(&summary.external_dependencies);
        let pending = PendingBatch {
            digest,
            batch,
            external_dependencies: summary.external_dependencies,
            same_batch_pair_count: summary.same_batch_pair_count,
            first_seen_sequence: self.latest_sequence,
            stalled_rounds: 0,
        };
        let ghost entry = pending@;
        self.pending_batches.push_back(pending);
        proof {
            assert(self@.pending =~= start.pending.push(entry));
            assert(self.pending_batches@.len() == self.pending_batches.len());
            assert forall|id: u64| start.counts.contains_key(id) implies #[trigger] start.counts[id]
                < usize::MAX by {
                lemma_waiting_push(start.pending, entry, id);
            }
            lemma_push(start, entry);
        }
        self.track_pending_dependencies(&dependencies);
        proof {
            lemma_same_queue(self@, self@.check_health());
        }
        self.maybe_log_pending_queue_health();
    }

    fn retry_front(&mut self) -> (executed: Option<ExecutedBatch>)
        requires
            old(self)@.valid(),
            old(self)@.pending.len() > 0,
        ensures
            final(self)@.valid(),
            final(self)@ == old(self)@.retry_front().0,
            match executed {
                Some(batch) => old(self)@.retry_front().1 == seq![batch@],
                None => old(self)@.retry_front().1 == Seq::<ExecutedView>::empty(),
            },
    {
        let ghost start = self@;
        let ghost queue = self.pending_batches@;
        let mut pending = self.pending_batches.pop_front().unwrap();
        proof {
            assert(pending@ == start.pending[0]);
            assert(self@.pending =~= start.pending.drop_first());
            lemma_retry_front(start);
        }
        if Self::batch_ready(&pending.external_dependencies, &self.processed_tx_ids) {
            self.untrack_pending_dependencies(&pending.external_dependencies);
            Some(
                self.execute_and_feedback(
                    pending.digest,
                    &pending.batch,
                    pending.same_batch_pair_count,
                ),
            )
        } else {
            pending.stalled_rounds = pending.stalled_rounds.saturating_add(1);
            let ghost delayed = pending@;
            self.pending_batches.push_back(pending);
            assert(self@.pending =~= start.pending.drop_first().push(delayed));
            None
        }
    }

    /// Executes the queued batches that have become ready, and those that become ready by that.
    pub fn retry_pending_batches(&mut self) -> (executed: Vec<ExecutedBatch>)
        requires
            old(self)@.valid(),
        ensures
            final(self)@.valid(),
            (final(self)@, executed_views(executed@)) == old(self)@.retry(),
    {
        let ghost start = self@;
        let mut executed: Vec<ExecutedBatch> = Vec::new();
        assert(executed_views(executed@) =~= Seq::empty());
        proof {
            assert(start.retry().1 =~= Seq::empty() + start.retry().1);
        }
        while self.pending_batches.len() > 0
            invariant
                start == old(self)@,
                self@.valid(),
                start.retry() == (
                    self@.retry().0,
                    executed_views(executed@) + self@.retry().1,
                ),
            decreases self@.pending.len(),
        {
            let ghost round = self@;
            let ghost before = executed_views(executed@);
            let pending_len = self.pending_batches.len();
            let done_before = executed.len();
            assert(round.pending.len() == pending_len);
            assert(executed_views(executed@) =~= before + Seq::empty());
            for i in 0..pending_len
                invariant
                    self@.valid(),
                    pending_len == round.pending.len(),
                    self@ == round.retry_first(i as nat).0,
                    executed_views(executed@) == before + round.retry_first(i as nat).1,
            {
                proof {
                    lemma_retry_first_len(round, i as nat);
                }
                let ghost so_far = executed_views(executed@);
                match self.retry_front() {
                    Some(batch) => {
                        let ghost view = batch@;
                        executed.push(batch);
                        assert(executed_views(executed@) =~= so_far.push(view));
                    },
                    None => {},
                }
                assert(executed_views(executed@) =~= before + round.retry_first((i + 1) as nat).1);
            }
            proof {
                lemma_retry_first_len(round, round.pending.len());
                assert(executed_views(executed@).len() == executed@.len());
                assert(before.len() == done_before);
            }
            if executed.len() == done_before {
                proof {
                    lemma_same_queue(self@, self@.check_health());
                    assert(round.retry_first(round.pending.len()).1 =~= Seq::empty());
                    assert(before + round.retry().1 =~= executed_views(executed@));
                }
                self.maybe_log_pending_queue_health();
                return executed;
            }
            proof {
                let (next, done) = round.retry_first(round.pending.len());
                assert(before + (done + next.retry().1) =~= (before + done) + next.retry().1);
            }
        }
        assert(executed_views(executed@) + Seq::empty() =~= executed_views(executed@));
        executed
    }

    /// Handles an ordered batch that was taken on: executes it if all that it waits for was
    /// executed, and then the queued batches that this releases; queues it otherwise.
    pub fn handle_batch(&mut self, digest: Digest, batch: Batch) -> (executed: Vec<ExecutedBatch>)
        requires
            old(self)@.valid(),
        ensures
            final(self)@.valid(),
            (final(self)@, executed_views(executed@)) == old(self)@.handle(digest, batch@),
    {
        let ghost start = self@;
        if self.latest_sequence < batch.sequence {
            self.latest_sequence = batch.sequence;
        }
        let ghost current = self@;
        let summary = Self::summarize_missing_edges(&batch);
        proof {
            lemma_same_queue(start, current);
            lemma_ascending_list(summary.external_dependencies@, external_dependencies(batch@));
        }
        if Self::batch_ready(&summary.external_dependencies, &self.processed_tx_ids) {
            proof {
                lemma_execute(current, digest, batch@, summary.same_batch_pair_count);
            }
            let first = self.execute_and_feedback(digest, &batch, summary.same_batch_pair_count);
            let ghost view = first@;
            let mut more = self.retry_pending_batches();
            let mut executed: Vec<ExecutedBatch> = Vec::new();
            executed.push(first);
            let ghost rest = more@;
            executed.append(&mut more);
            assert(executed_views(executed@) =~= seq![view] + executed_views(rest));
            executed
        } else {
            self.enqueue_pending_batch(digest, batch, summary);
            let executed: Vec<ExecutedBatch> = Vec::new();
            assert(executed_views(executed@) =~= Seq::empty());
            executed
        }
    }

    /// Processes an ordered batch that was taken on: tells the batch maker of its missing pairs,
    /// as far as that is possible, and handles it.
    pub fn process_batch(&mut self, digest: Digest, batch: Batch) -> (executed: Vec<ExecutedBatch>)
        requires
            old(self)@.valid(),
        ensures
            final(self)@.valid(),
            exists|noted: ExecutorView| #[trigger]
                may_observe(old(self)@, batch@, noted) && (
                    final(self)@,
                    executed_views(executed@),
                ) == noted.handle(digest, batch@),
    {
        self.observe_global_batch_best_effort(&batch);
        let ghost noted = self@;
        assert(may_observe(old(self)@, batch@, noted));
        self.handle_batch(digest, batch)
    }

    /// Whether there is anything to report.
    pub fn has_metrics(&self) -> (any: bool)
        ensures
            any == (self@.fallback_batches > 0 || self@.fallback_pairs > 0
                || self@.dropped_observations > 0 || self@.health_events > 0
                || self@.trim_blocked_events > 0 || self@.pending.len() > 0),
    {
        self.same_batch_fallback_batches > 0 || self.same_batch_fallback_pairs > 0
            || self.dropped_observations > 0 || self.pending_health_events > 0
            || self.processed_trim_blocked_events > 0 || self.pending_batches.len() > 0
    }
}

/// A copy of a list of transactions.
fn copy_ids(ids: &Vec<u64>) -> (copy: Vec<u64>)
    ensures
        copy@ == ids@,
{
    let mut copy: Vec<u64> = Vec::new();
    for i in 0..ids.len()
        invariant
            copy@ == ids@.take(i as int),
    {
        copy.push(ids[i]);
        assert(copy@ =~= ids@.take(i + 1));
    }
    assert(ids@.take(ids@.len() as int) =~= ids@);
    copy
}

/// `after` is the state after the batch maker was told of `batch`, or could not be told: nothing is
/// told of a batch without missing pairs; otherwise the observation that describes it was sent, or
/// refused and then kept back or lost.
pub open spec fn may_observe(before: ExecutorView, batch: BatchView, after: ExecutorView) -> bool {
    if batch.missing_edges.len() == 0 {
        after == before
    } else {
        exists|info: InfoView| #[trigger]
            describes(info, batch) && {
                ||| after == before.hand_over(info)
                ||| after == before.find_full(info).keep_back(info)
                ||| after == before.find_closed(info).lose_observations(1)
            }
    }
}

/// `after` is `before` after its `n` oldest observations were sent. That was all that `budget`
/// allows or all there were, or the next one was refused; where the channel was closed, it and
/// those after it are lost.
pub open spec fn flushed(before: ExecutorView, after: ExecutorView, budget: int, n: int) -> bool {
    let next = before.observations[n];
    ||| (n == budget || n == before.observations.len()) && after == before.hand_over_oldest(n)
    ||| n < budget && n < before.observations.len() && after == before.hand_over_oldest(n).find_full(
        next,
    )
    ||| n < budget && n < before.observations.len() && after == (ExecutorView {
        observations: Seq::empty(),
        ..before.hand_over_oldest(n).find_closed(next).lose_observations(
            before.observations.len() - n,
        )
    })
}

/// The invariant does not rest on observations and counters.
proof fn lemma_same_queue(a: ExecutorView, b: ExecutorView)
    requires
        a.valid(),
        a.pending == b.pending,
        a.counts == b.counts,
        a.processed == b.processed,
        a.processed_fifo == b.processed_fifo,
        b.observations.len() <= a.observations.len(),
    ensures
        b.valid(),
{
}

} // verus!
