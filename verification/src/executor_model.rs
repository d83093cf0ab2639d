//! The state of an executor, and what its operations make of it.

use vstd::multiset::Multiset;
use vstd::prelude::*;
use vstd::seq_lib::{group_to_multiset_ensures, lemma_multiset_commutative};
use crate::batch::{BatchView, Digest, WorkerId};
use crate::channels::Refusal;
use crate::control::{ControlView, InfoView};
use crate::execution::{executed_transactions, external_dependencies, internal_pairs};
use crate::ordered::ascending;
use crate::transaction::standard_ids;

verus! {

/// How many executed transactions are remembered, unless more of them are still needed.
pub const MAX_PROCESSED_TX_IDS: usize = 65_536;

/// From how many queued batches on the queue counts as unhealthy.
pub const MAX_PENDING_BATCHES_SOFT: usize = 4_096;

/// From how many rounds of delay on the queue counts as unhealthy.
pub const MAX_PENDING_SEQUENCE_LAG_SOFT: u64 = 256;

/// How many observations are kept back.
pub const MAX_PENDING_OBSERVATIONS: usize = 1_024;

/// A batch that waits for transactions of other batches.
pub struct PendingView {
    pub digest: Digest,
    pub batch: BatchView,
    pub dependencies: Seq<u64>,
    pub pair_count: usize,
    pub first_seen: u64,
    pub stalled_rounds: u32,
}

/// A batch that was executed.
pub struct ExecutedView {
    pub digest: Digest,
    pub transactions: Seq<Seq<u8>>,
    /// Its standard transactions, in ascending order.
    pub processed: Seq<u64>,
}

/// The state of an executor.
pub struct ExecutorView {
    pub id: WorkerId,
    /// The batches that were taken on.
    pub executed: Set<Digest>,
    /// The executed transactions that are remembered.
    pub processed: Set<u64>,
    /// The same, oldest first.
    pub processed_fifo: Seq<u64>,
    /// The batches that wait.
    pub pending: Seq<PendingView>,
    /// For each transaction, how many batches wait for it.
    pub counts: Map<u64, usize>,
    /// The latest round that was seen.
    pub latest: u64,
    /// The messages that were sent to the batch maker.
    pub sent: Seq<ControlView>,
    /// The messages to the batch maker that could not be sent when that was tried.
    pub refused: Seq<Refusal>,
    /// The observations that are kept back, oldest first.
    pub observations: Seq<InfoView>,
    pub dropped_observations: u64,
    pub health_events: u64,
    pub trim_blocked_events: u64,
    pub fallback_batches: u64,
    pub fallback_pairs: u64,
}

/// A counter after `by` more events. It stops at its greatest value.
pub open spec fn bump(counter: u64, by: int) -> u64 {
    if counter + by > u64::MAX {
        u64::MAX
    } else {
        (counter + by) as u64
    }
}

/// All dependencies have been executed.
pub open spec fn all_processed(dependencies: Seq<u64>, processed: Set<u64>) -> bool {
    forall|i: int| 0 <= i < dependencies.len() ==> processed.contains(#[trigger] dependencies[i])
}

/// The members of a set in ascending order.
pub open spec fn ascending_list(set: Set<u64>) -> Seq<u64> {
    choose|list: Seq<u64>| ascending(list) && list.to_set() == set
}

/// What is remembered once it is trimmed to `cap`: the oldest transactions are forgotten, but those
/// that are needed go to the end instead; `scanned` of them in a row were passed.
pub open spec fn trimmed(
    fifo: Seq<u64>,
    processed: Set<u64>,
    needed: Set<u64>,
    cap: nat,
    scanned: nat,
) -> (Seq<u64>, Set<u64>)
    decreases fifo.len(), fifo.len() - scanned,
{
    if fifo.len() > cap && scanned < fifo.len() {
        let oldest = fifo[0];
        if needed.contains(oldest) {
            trimmed(fifo.drop_first().push(oldest), processed, needed, cap, scanned + 1)
        } else {
            trimmed(fifo.drop_first(), processed.remove(oldest), needed, cap, 0)
        }
    } else {
        (fifo, processed)
    }
}

/// The counts after one more batch waits for `dependencies`.
pub open spec fn track(counts: Map<u64, usize>, dependencies: Seq<u64>) -> Map<u64, usize>
    decreases dependencies.len(),
{
    if dependencies.len() == 0 {
        counts
    } else {
        let before = track(counts, dependencies.drop_last());
        let id = dependencies.last();
        before.insert(
            id,
            if before.contains_key(id) {
                (before[id] + 1) as usize
            } else {
                1
            },
        )
    }
}

/// The counts after one batch less waits for `dependencies`.
pub open spec fn untrack(counts: Map<u64, usize>, dependencies: Seq<u64>) -> Map<u64, usize>
    decreases dependencies.len(),
{
    if dependencies.len() == 0 {
        counts
    } else {
        let before = untrack(counts, dependencies.drop_last());
        let id = dependencies.last();
        if !before.contains_key(id) {
            before
        } else if before[id] <= 1 {
            before.remove(id)
        } else {
            before.insert(id, (before[id] - 1) as usize)
        }
    }
}

/// How many of the batches wait for `id`.
pub open spec fn waiting_for(pending: Seq<PendingView>, id: u64) -> nat
    decreases pending.len(),
{
    if pending.len() == 0 {
        0
    } else {
        waiting_for(pending.drop_last(), id) + (if pending.last().dependencies.contains(id) {
            1nat
        } else {
            0
        })
    }
}

impl ExecutorView {
    /// The state after the transactions `ids` are remembered, however many there are.
    pub open spec fn remember_each(self, ids: Seq<u64>) -> ExecutorView
        decreases ids.len(),
    {
        if ids.len() == 0 {
            self
        } else {
            let before = self.remember_each(ids.drop_last());
            if before.processed.contains(ids.last()) {
                before
            } else {
                ExecutorView {
                    processed: before.processed.insert(ids.last()),
                    processed_fifo: before.processed_fifo.push(ids.last()),
                    ..before
                }
            }
        }
    }

    /// The state after what is remembered is trimmed to `cap`.
    pub open spec fn trim(self, cap: nat) -> ExecutorView {
        let (fifo, processed) = trimmed(
            self.processed_fifo,
            self.processed,
            self.counts.dom(),
            cap,
            0,
        );
        ExecutorView {
            processed_fifo: fifo,
            processed,
            trim_blocked_events: if fifo.len() > cap {
                bump(self.trim_blocked_events, 1)
            } else {
                self.trim_blocked_events
            },
            ..self
        }
    }

    /// The state after the transactions `ids` were executed.
    pub open spec fn remember(self, ids: Seq<u64>) -> ExecutorView {
        self.remember_each(ids).trim(MAX_PROCESSED_TX_IDS as nat)
    }

    /// The state after a batch with `pairs` open pairs of its own was released.
    pub open spec fn count_fallback(self, pairs: usize) -> ExecutorView {
        if pairs == 0 {
            self
        } else {
            ExecutorView {
                fallback_batches: bump(self.fallback_batches, 1),
                fallback_pairs: bump(self.fallback_pairs, pairs as int),
                ..self
            }
        }
    }

    /// A batch is executed: the state after it, and what was executed.
    pub open spec fn execute(self, digest: Digest, batch: BatchView, pairs: usize) -> (
        ExecutorView,
        ExecutedView,
    ) {
        let transactions = executed_transactions(batch);
        let processed = ascending_list(standard_ids(transactions));
        (
            self.count_fallback(pairs).remember(processed),
            ExecutedView { digest, transactions, processed },
        )
    }

    /// The queue has grown too long, or a batch has waited for too many rounds.
    pub open spec fn is_unhealthy(self) -> bool {
        ||| self.pending.len() > MAX_PENDING_BATCHES_SOFT
        ||| exists|i: int|
            0 <= i < self.pending.len() && self.latest - (#[trigger] self.pending[i]).first_seen
                > MAX_PENDING_SEQUENCE_LAG_SOFT
    }

    /// The state after the health of the queue was looked at.
    pub open spec fn check_health(self) -> ExecutorView {
        if self.is_unhealthy() {
            ExecutorView { health_events: bump(self.health_events, 1), ..self }
        } else {
            self
        }
    }

    /// The first batch of the queue is executed if it is ready, and goes to the end otherwise.
    pub open spec fn retry_front(self) -> (ExecutorView, Seq<ExecutedView>) {
        let front = self.pending[0];
        let rest = self.pending.drop_first();
        if all_processed(front.dependencies, self.processed) {
            let (next, executed) = (ExecutorView {
                pending: rest,
                counts: untrack(self.counts, front.dependencies),
                ..self
            }).execute(front.digest, front.batch, front.pair_count);
            (next, seq![executed])
        } else {
            let delayed = PendingView {
                stalled_rounds: if front.stalled_rounds < u32::MAX {
                    (front.stalled_rounds + 1) as u32
                } else {
                    u32::MAX
                },
                ..front
            };
            (ExecutorView { pending: rest.push(delayed), ..self }, Seq::empty())
        }
    }

    /// The first `n` batches of the queue are retried, one after the other.
    pub open spec fn retry_first(self, n: nat) -> (ExecutorView, Seq<ExecutedView>)
        decreases n,
    {
        if n == 0 {
            (self, Seq::empty())
        } else {
            let (before, done) = self.retry_first((n - 1) as nat);
            let (next, more) = before.retry_front();
            (next, done + more)
        }
    }

    /// The queue is retried again and again, as long as a batch of it can be executed.
    pub open spec fn retry(self) -> (ExecutorView, Seq<ExecutedView>)
        decreases self.pending.len(),
    {
        if self.pending.len() == 0 {
            (self, Seq::empty())
        } else {
            let (next, done) = self.retry_first(self.pending.len());
            if done.len() == 0 {
                (next.check_health(), done)
            } else {
                proof {
                    lemma_retry_first_len(self, self.pending.len());
                }
                let (end, more) = next.retry();
                (end, done + more)
            }
        }
    }

    /// A batch is handled: it is executed, and with it the queued ones that it releases, or it is
    /// queued itself.
    pub open spec fn handle(self, digest: Digest, batch: BatchView) -> (
        ExecutorView,
        Seq<ExecutedView>,
    ) {
        let current = ExecutorView {
            latest: if self.latest >= batch.sequence {
                self.latest
            } else {
                batch.sequence
            },
            ..self
        };
        let dependencies = ascending_list(external_dependencies(batch));
        let pair_count = internal_pairs(batch).len() as usize;
        if all_processed(dependencies, self.processed) {
            let (next, executed) = current.execute(digest, batch, pair_count);
            let (end, more) = next.retry();
            (end, seq![executed] + more)
        } else {
            (
                (ExecutorView {
                    pending: self.pending.push(
                        PendingView {
                            digest,
                            batch,
                            dependencies,
                            pair_count,
                            first_seen: current.latest,
                            stalled_rounds: 0,
                        },
                    ),
                    counts: track(self.counts, dependencies),
                    ..current
                }).check_health(),
                Seq::empty(),
            )
        }
    }

    /// The state after an observation was sent.
    pub open spec fn hand_over(self, info: InfoView) -> ExecutorView {
        ExecutorView { sent: self.sent.push(ControlView::ObserveGlobalGraph(info)), ..self }
    }

    /// The state after the `n` oldest of the observations that are kept back were sent.
    pub open spec fn hand_over_oldest(self, n: int) -> ExecutorView {
        ExecutorView {
            sent: self.sent + self.observations.take(n).map_values(
                |info: InfoView| ControlView::ObserveGlobalGraph(info),
            ),
            observations: self.observations.skip(n),
            ..self
        }
    }

    /// The state after an observation was refused because the channel was full.
    pub open spec fn find_full(self, info: InfoView) -> ExecutorView {
        ExecutorView {
            refused: self.refused.push(Refusal::Full(ControlView::ObserveGlobalGraph(info))),
            ..self
        }
    }

    /// The state after an observation was refused because the channel was closed.
    pub open spec fn find_closed(self, info: InfoView) -> ExecutorView {
        ExecutorView {
            refused: self.refused.push(Refusal::Closed(ControlView::ObserveGlobalGraph(info))),
            ..self
        }
    }

    /// The state after `n` observations more were lost.
    pub open spec fn lose_observations(self, n: int) -> ExecutorView {
        ExecutorView { dropped_observations: bump(self.dropped_observations, n), ..self }
    }

    /// The state after an observation was kept back; the oldest is lost where there are too many.
    pub open spec fn keep_back(self, info: InfoView) -> ExecutorView {
        if self.observations.len() >= MAX_PENDING_OBSERVATIONS {
            (ExecutorView {
                observations: self.observations.drop_first().push(info),
                ..self
            }).lose_observations(1)
        } else {
            ExecutorView { observations: self.observations.push(info), ..self }
        }
    }

    /// What is remembered is listed once, the counts are those of the queue, and not too many
    /// observations are kept back.
    pub open spec fn valid(self) -> bool {
        &&& self.observations.len() <= MAX_PENDING_OBSERVATIONS
        &&& self.processed_fifo.no_duplicates()
        &&& self.processed_fifo.to_set() == self.processed
        &&& forall|i: int|
            0 <= i < self.pending.len() ==> (#[trigger] self.pending[i]).dependencies.no_duplicates()
        &&& forall|id: u64| #[trigger]
            self.counts.contains_key(id) <==> waiting_for(self.pending, id) > 0
        &&& forall|id: u64|
            self.counts.contains_key(id) ==> #[trigger] self.counts[id] == waiting_for(
                self.pending,
                id,
            )
    }
}

/// Each retried batch is executed or stays in the queue.
pub proof fn lemma_retry_first_len(view: ExecutorView, n: nat)
    requires
        n <= view.pending.len(),
    ensures
        view.retry_first(n).0.pending.len() + view.retry_first(n).1.len() == view.pending.len(),
        view.retry_first(n).1.len() <= n,
    decreases n,
{
    if n > 0 {
        lemma_retry_first_len(view, (n - 1) as nat);
        let before = view.retry_first((n - 1) as nat).0;
        lemma_execute_keeps(
            ExecutorView {
                pending: before.pending.drop_first(),
                counts: untrack(before.counts, before.pending[0].dependencies),
                ..before
            },
            before.pending[0].digest,
            before.pending[0].batch,
            before.pending[0].pair_count,
        );
    }
}

/// Execution leaves the queue alone.
pub proof fn lemma_execute_keeps(view: ExecutorView, digest: Digest, batch: BatchView, pairs: usize)
    ensures
        view.execute(digest, batch, pairs).0.pending == view.pending,
        view.execute(digest, batch, pairs).0.counts == view.counts,
        view.execute(digest, batch, pairs).0.observations == view.observations,
        view.execute(digest, batch, pairs).0.executed == view.executed,
        view.execute(digest, batch, pairs).0.latest == view.latest,
        view.execute(digest, batch, pairs).0.id == view.id,
{
    lemma_remember_each_keeps(
        view.count_fallback(pairs),
        ascending_list(standard_ids(executed_transactions(batch))),
    );
}

/// Remembering changes nothing but what is remembered.
pub proof fn lemma_remember_each_keeps(view: ExecutorView, ids: Seq<u64>)
    ensures
        view.remember_each(ids) == (ExecutorView {
            processed: view.remember_each(ids).processed,
            processed_fifo: view.remember_each(ids).processed_fifo,
            ..view
        }),
    decreases ids.len(),
{
    if ids.len() > 0 {
        lemma_remember_each_keeps(view, ids.drop_last());
    }
}

/// What goes from `fifo` is the oldest of what is not needed: whatever stays without being needed
/// came after all that goes.
pub open spec fn forgets_oldest(fifo: Seq<u64>, needed: Set<u64>, kept: Set<u64>) -> bool {
    forall|i: int, j: int|
        0 <= i < fifo.len() && 0 <= j < fifo.len() && !kept.contains(#[trigger] fifo[i])
            && kept.contains(#[trigger] fifo[j]) && !needed.contains(fifo[j]) ==> i < j
}

/// Trimming keeps what is remembered listed once. It forgets nothing that is needed, and stops
/// only where the cap is met or everything left is needed. Of those that are not needed, the ones
/// that stay came after the ones that go.
pub proof fn lemma_trimmed(
    fifo: Seq<u64>,
    processed: Set<u64>,
    needed: Set<u64>,
    cap: nat,
    scanned: nat,
)
    requires
        fifo.no_duplicates(),
        fifo.to_set() == processed,
        scanned <= fifo.len(),
        forall|i: int| fifo.len() - scanned <= i < fifo.len() ==> needed.contains(#[trigger] fifo[i]),
    ensures
        ({
            let (left, kept) = trimmed(fifo, processed, needed, cap, scanned);
            &&& left.no_duplicates()
            &&& left.to_set() == kept
            &&& kept.subset_of(processed)
            &&& forall|id: u64| #[trigger]
                processed.contains(id) && needed.contains(id) ==> kept.contains(id)
            &&& left.len() > cap ==> forall|id: u64| #[trigger] kept.contains(id) ==> needed.contains(id)
            &&& left.len() >= cap || left.len() == fifo.len()
            &&& forgets_oldest(fifo, needed, kept)
        }),
    decreases fifo.len(), fifo.len() - scanned,
{
    assert(forall|i: int| 0 <= i < fifo.len() ==> processed.contains(#[trigger] fifo[i]));
    if fifo.len() > cap && scanned < fifo.len() {
        let oldest = fifo[0];
        let rest = fifo.drop_first();
        assert(fifo =~= seq![oldest] + rest);
        assert forall|x: u64| rest.contains(x) <==> fifo.contains(x) && x != oldest by {
            if rest.contains(x) {
                let k = choose|k: int| 0 <= k < rest.len() && rest[k] == x;
                assert(fifo[k + 1] == x);
            }
            if fifo.contains(x) && x != oldest {
                let k = choose|k: int| 0 <= k < fifo.len() && fifo[k] == x;
                assert(rest[k - 1] == x);
            }
        }
        assert(fifo.to_set().contains(oldest));
        if needed.contains(oldest) {
            let moved = rest.push(oldest);
            crate::ordered::lemma_push_contains(rest, oldest);
            assert(moved.no_duplicates());
            assert forall|x: u64| moved.to_set().contains(x) <==> processed.contains(x) by {
                assert(fifo.to_set().contains(x) <==> fifo.contains(x));
            }
            assert(moved.to_set() =~= processed);
            assert forall|i: int| moved.len() - (scanned + 1) <= i < moved.len() implies needed.contains(
                #[trigger] moved[i],
            ) by {
                if i < moved.len() - 1 {
                    assert(moved[i] == fifo[i + 1]);
                }
            }
            lemma_trimmed(moved, processed, needed, cap, scanned + 1);
            let kept = trimmed(fifo, processed, needed, cap, scanned).1;
            assert forall|i: int, j: int|
                0 <= i < fifo.len() && 0 <= j < fifo.len() && !kept.contains(#[trigger] fifo[i])
                    && kept.contains(#[trigger] fifo[j]) && !needed.contains(fifo[j]) implies i < j by {
                assert(i > 0 && j > 0);
                assert(moved[i - 1] == fifo[i] && moved[j - 1] == fifo[j]);
            }
        } else {
            assert(rest.no_duplicates());
            assert forall|x: u64| rest.to_set().contains(x) <==> processed.remove(oldest).contains(
                x,
            ) by {
                assert(fifo.to_set().contains(x) <==> fifo.contains(x));
            }
            assert(rest.to_set() =~= processed.remove(oldest));
            lemma_trimmed(rest, processed.remove(oldest), needed, cap, 0);
            let kept = trimmed(fifo, processed, needed, cap, scanned).1;
            assert forall|i: int, j: int|
                0 <= i < fifo.len() && 0 <= j < fifo.len() && !kept.contains(#[trigger] fifo[i])
                    && kept.contains(#[trigger] fifo[j]) && !needed.contains(fifo[j]) implies i < j by {
                assert(!kept.contains(oldest));
                if i > 0 {
                    assert(rest[i - 1] == fifo[i] && rest[j - 1] == fifo[j]);
                }
            }
        }
    } else if fifo.len() > cap {
        assert forall|id: u64| #[trigger] processed.contains(id) implies needed.contains(id) by {
            assert(fifo.to_set().contains(id));
            let k = choose|k: int| 0 <= k < fifo.len() && fifo[k] == id;
            assert(needed.contains(fifo[k]));
        }
    }
}

/// Remembering keeps what is remembered listed once.
pub proof fn lemma_remember_each(view: ExecutorView, ids: Seq<u64>)
    requires
        view.processed_fifo.no_duplicates(),
        view.processed_fifo.to_set() == view.processed,
    ensures
        view.remember_each(ids).processed_fifo.no_duplicates(),
        view.remember_each(ids).processed_fifo.to_set() == view.remember_each(ids).processed,
        view.remember_each(ids).processed == view.processed.union(ids.to_set()),
    decreases ids.len(),
{
    if ids.len() == 0 {
        assert(view.processed.union(ids.to_set()) =~= view.processed);
    } else {
        let fewer = ids.drop_last();
        lemma_remember_each(view, fewer);
        let before = view.remember_each(fewer);
        let id = ids.last();
        assert(ids =~= fewer.push(id));
        fewer.lemma_push_to_set_commute(id);
        assert(before.processed_fifo.to_set().contains(id) <==> before.processed_fifo.contains(id));
        before.processed_fifo.lemma_push_to_set_commute(id);
        assert(view.remember_each(ids).processed =~= view.processed.union(ids.to_set()));
    }
}

/// Remembering keeps the invariant.
pub proof fn lemma_remember(view: ExecutorView, ids: Seq<u64>)
    requires
        view.valid(),
    ensures
        view.remember(ids).valid(),
{
    let noted = view.remember_each(ids);
    lemma_remember_each(view, ids);
    lemma_remember_each_keeps(view, ids);
    lemma_trimmed(
        noted.processed_fifo,
        noted.processed,
        noted.counts.dom(),
        MAX_PROCESSED_TX_IDS as nat,
        0,
    );
    lemma_valid_counts(view, view.remember(ids));
}

/// The invariant of the queue rests on the queue and the counts alone.
proof fn lemma_valid_counts(a: ExecutorView, b: ExecutorView)
    requires
        a.valid(),
        a.pending == b.pending,
        a.counts == b.counts,
        a.observations == b.observations,
        b.processed_fifo.no_duplicates(),
        b.processed_fifo.to_set() == b.processed,
    ensures
        b.valid(),
{
}

/// Execution keeps the invariant.
pub proof fn lemma_execute(view: ExecutorView, digest: Digest, batch: BatchView, pairs: usize)
    requires
        view.valid(),
    ensures
        view.execute(digest, batch, pairs).0.valid(),
{
    lemma_remember(
        view.count_fallback(pairs),
        ascending_list(standard_ids(executed_transactions(batch))),
    );
}

/// The batches that wait, one more of them.
pub proof fn lemma_waiting_push(pending: Seq<PendingView>, entry: PendingView, id: u64)
    ensures
        waiting_for(pending.push(entry), id) == waiting_for(pending, id) + (
        if entry.dependencies.contains(id) {
            1nat
        } else {
            0
        }),
        waiting_for(pending, id) <= pending.len(),
    decreases pending.len(),
{
    assert(pending.push(entry).drop_last() =~= pending);
    if pending.len() > 0 {
        lemma_waiting_push(pending.drop_last(), pending.last(), id);
        assert(pending.drop_last().push(pending.last()) =~= pending);
    }
}

/// The batches that wait, without the first of them.
pub proof fn lemma_waiting_pop(pending: Seq<PendingView>, id: u64)
    requires
        pending.len() > 0,
    ensures
        waiting_for(pending, id) == waiting_for(pending.drop_first(), id) + (
        if pending[0].dependencies.contains(id) {
            1nat
        } else {
            0
        }),
    decreases pending.len(),
{
    if pending.len() > 1 {
        lemma_waiting_pop(pending.drop_last(), id);
        assert(pending.drop_first().drop_last() =~= pending.drop_last().drop_first());
    } else {
        assert(pending.drop_last() =~= Seq::empty());
        assert(pending.drop_first() =~= Seq::empty());
    }
}

/// The count of a transaction after some batches more wait for it.
pub proof fn lemma_track(counts: Map<u64, usize>, dependencies: Seq<u64>, id: u64)
    requires
        dependencies.no_duplicates(),
        counts.contains_key(id) ==> counts[id] < usize::MAX,
    ensures
        track(counts, dependencies).contains_key(id) <==> counts.contains_key(id)
            || dependencies.contains(id),
        track(counts, dependencies).contains_key(id) ==> track(counts, dependencies)[id] == (
        if counts.contains_key(id) {
            counts[id] as int
        } else {
            0
        }) + (if dependencies.contains(id) {
            1int
        } else {
            0
        }),
    decreases dependencies.len(),
{
    if dependencies.len() > 0 {
        let fewer = dependencies.drop_last();
        lemma_track(counts, fewer, id);
        crate::ordered::lemma_push_contains(fewer, dependencies.last());
        assert(dependencies =~= fewer.push(dependencies.last()));
        assert(fewer.contains(id) ==> dependencies.last() != id) by {
            if fewer.contains(id) {
                let k = choose|k: int| 0 <= k < fewer.len() && fewer[k] == id;
                assert(dependencies[k] == id);
            }
        }
    }
}

/// The count of a transaction after a batch less waits for it.
pub proof fn lemma_untrack(counts: Map<u64, usize>, dependencies: Seq<u64>, id: u64)
    requires
        dependencies.no_duplicates(),
        counts.contains_key(id) ==> counts[id] > 0,
    ensures
        untrack(counts, dependencies).contains_key(id) <==> counts.contains_key(id) && !(
        dependencies.contains(id) && counts[id] == 1),
        untrack(counts, dependencies).contains_key(id) ==> untrack(counts, dependencies)[id]
            == counts[id] - (if dependencies.contains(id) {
            1int
        } else {
            0
        }),
    decreases dependencies.len(),
{
    if dependencies.len() > 0 {
        let fewer = dependencies.drop_last();
        lemma_untrack(counts, fewer, id);
        crate::ordered::lemma_push_contains(fewer, dependencies.last());
        assert(dependencies =~= fewer.push(dependencies.last()));
        assert(fewer.contains(id) ==> dependencies.last() != id) by {
            if fewer.contains(id) {
                let k = choose|k: int| 0 <= k < fewer.len() && fewer[k] == id;
                assert(dependencies[k] == id);
            }
        }
    }
}

/// Taking the first batch out of the queue keeps the invariant.
pub proof fn lemma_pop(view: ExecutorView)
    requires
        view.valid(),
        view.pending.len() > 0,
    ensures
        (ExecutorView {
            pending: view.pending.drop_first(),
            counts: untrack(view.counts, view.pending[0].dependencies),
            ..view
        }).valid(),
{
    let front = view.pending[0];
    let rest = view.pending.drop_first();
    let counts = untrack(view.counts, front.dependencies);
    assert forall|i: int| 0 <= i < rest.len() implies (
    #[trigger] rest[i]).dependencies.no_duplicates() by {
        assert(rest[i] == view.pending[i + 1]);
    }
    assert forall|id: u64|
        (#[trigger] counts.contains_key(id) <==> waiting_for(rest, id) > 0) && (
        counts.contains_key(id) ==> counts[id] == waiting_for(rest, id)) by {
        lemma_untrack(view.counts, front.dependencies, id);
        lemma_waiting_pop(view.pending, id);
    }
}

/// Adding a batch to the queue keeps the invariant.
pub proof fn lemma_push(view: ExecutorView, entry: PendingView)
    requires
        view.valid(),
        entry.dependencies.no_duplicates(),
        view.pending.len() < usize::MAX,
    ensures
        (ExecutorView {
            pending: view.pending.push(entry),
            counts: track(view.counts, entry.dependencies),
            ..view
        }).valid(),
{
    let more = view.pending.push(entry);
    let counts = track(view.counts, entry.dependencies);
    assert forall|id: u64|
        (#[trigger] counts.contains_key(id) <==> waiting_for(more, id) > 0) && (
        counts.contains_key(id) ==> counts[id] == waiting_for(more, id)) by {
        lemma_waiting_push(view.pending, entry, id);
        lemma_track(view.counts, entry.dependencies, id);
    }
}

/// Moving the first batch to the end of the queue keeps the invariant.
pub proof fn lemma_rotate(view: ExecutorView, delayed: PendingView)
    requires
        view.valid(),
        view.pending.len() > 0,
        delayed.dependencies == view.pending[0].dependencies,
    ensures
        (ExecutorView { pending: view.pending.drop_first().push(delayed), ..view }).valid(),
{
    let rest = view.pending.drop_first();
    let next = rest.push(delayed);
    assert forall|i: int| 0 <= i < next.len() implies (
    #[trigger] next[i]).dependencies.no_duplicates() by {
        if i < rest.len() {
            assert(next[i] == view.pending[i + 1]);
        }
    }
    assert forall|id: u64| #[trigger] waiting_for(next, id) == waiting_for(view.pending, id) by {
        lemma_waiting_pop(view.pending, id);
        lemma_waiting_push(rest, delayed, id);
    }
    let after = ExecutorView { pending: next, ..view };
    assert forall|id: u64| #[trigger]
        after.counts.contains_key(id) <==> waiting_for(after.pending, id) > 0 by {
        assert(waiting_for(next, id) == waiting_for(view.pending, id));
    }
    assert forall|id: u64| after.counts.contains_key(id) implies #[trigger] after.counts[id]
        == waiting_for(after.pending, id) by {
        assert(waiting_for(next, id) == waiting_for(view.pending, id));
    }
}

/// Retrying keeps the invariant.
pub proof fn lemma_retry_front(view: ExecutorView)
    requires
        view.valid(),
        view.pending.len() > 0,
    ensures
        view.retry_front().0.valid(),
{
    let front = view.pending[0];
    lemma_pop(view);
    lemma_execute(
        ExecutorView {
            pending: view.pending.drop_first(),
            counts: untrack(view.counts, front.dependencies),
            ..view
        },
        front.digest,
        front.batch,
        front.pair_count,
    );
    lemma_rotate(
        view,
        PendingView {
            stalled_rounds: if front.stalled_rounds < u32::MAX {
                (front.stalled_rounds + 1) as u32
            } else {
                u32::MAX
            },
            ..front
        },
    );
}

/// A transaction that a queued batch waits for is never forgotten once it was executed.
pub proof fn lemma_needed_is_remembered(view: ExecutorView, ids: Seq<u64>, id: u64)
    requires
        view.valid(),
        view.processed.contains(id) || ids.contains(id),
        waiting_for(view.pending, id) > 0,
    ensures
        view.remember(ids).processed.contains(id),
{
    let noted = view.remember_each(ids);
    lemma_remember_each(view, ids);
    lemma_remember_each_keeps(view, ids);
    assert(ids.contains(id) ==> ids.to_set().contains(id));
    assert(noted.processed.contains(id));
    assert(noted.counts.dom().contains(id)) by {
        assert(view.counts.contains_key(id));
    }
    lemma_trimmed(
        noted.processed_fifo,
        noted.processed,
        noted.counts.dom(),
        MAX_PROCESSED_TX_IDS as nat,
        0,
    );
}

/// No more executed transactions are remembered than the cap allows, unless a queued batch waits
/// for each of them.
pub proof fn lemma_memory_is_bounded(view: ExecutorView, ids: Seq<u64>)
    requires
        view.valid(),
    ensures
        view.remember(ids).processed_fifo.len() <= MAX_PROCESSED_TX_IDS || forall|id: u64| #[trigger]
            view.remember(ids).processed.contains(id) ==> waiting_for(view.pending, id) > 0,
{
    let noted = view.remember_each(ids);
    lemma_remember_each(view, ids);
    lemma_remember_each_keeps(view, ids);
    lemma_trimmed(
        noted.processed_fifo,
        noted.processed,
        noted.counts.dom(),
        MAX_PROCESSED_TX_IDS as nat,
        0,
    );
    if view.remember(ids).processed_fifo.len() > MAX_PROCESSED_TX_IDS {
        assert forall|id: u64| #[trigger] view.remember(ids).processed.contains(id) implies waiting_for(
            view.pending,
            id,
        ) > 0 by {
            assert(noted.counts.dom().contains(id));
            assert(view.counts.contains_key(id));
        }
    }
}

/// Trimming to `cap` forgets the oldest of the transactions that no queued batch waits for, and of
/// them no more than it takes to meet `cap`.
pub proof fn lemma_oldest_are_forgotten(view: ExecutorView, cap: nat)
    requires
        view.valid(),
    ensures
        forgets_oldest(view.processed_fifo, view.counts.dom(), view.trim(cap).processed),
        view.trim(cap).processed.subset_of(view.processed),
        view.trim(cap).processed_fifo.len() >= cap || view.trim(cap).processed == view.processed,
        view.trim(cap).processed_fifo.len() <= cap || forall|id: u64| #[trigger]
            view.trim(cap).processed.contains(id) ==> view.counts.contains_key(id),
        forall|id: u64| #[trigger]
            view.processed.contains(id) && view.counts.contains_key(id) ==> view.trim(
                cap,
            ).processed.contains(id),
{
    let fifo = view.processed_fifo;
    let left = view.trim(cap).processed_fifo;
    lemma_trimmed(fifo, view.processed, view.counts.dom(), cap, 0);
    if left.len() < cap {
        left.unique_seq_to_set();
        fifo.unique_seq_to_set();
        vstd::set_lib::lemma_subset_equality(left.to_set(), fifo.to_set());
    }
}

/// The digests of the batches that wait.
pub open spec fn queued_digests(pending: Seq<PendingView>) -> Multiset<Digest> {
    pending.map_values(|entry: PendingView| entry.digest).to_multiset()
}

/// The digests of the batches that were executed.
pub open spec fn executed_digests(executed: Seq<ExecutedView>) -> Multiset<Digest> {
    executed.map_values(|batch: ExecutedView| batch.digest).to_multiset()
}

proof fn lemma_executed_digests_add(a: Seq<ExecutedView>, b: Seq<ExecutedView>)
    ensures
        executed_digests(a + b) == executed_digests(a).add(executed_digests(b)),
{
    let digest = |batch: ExecutedView| batch.digest;
    assert((a + b).map_values(digest) =~= a.map_values(digest) + b.map_values(digest));
    lemma_multiset_commutative(a.map_values(digest), b.map_values(digest));
}

proof fn lemma_executed_digests_few(batch: ExecutedView)
    ensures
        executed_digests(Seq::empty()) == Multiset::<Digest>::empty(),
        executed_digests(seq![batch]) == Multiset::singleton(batch.digest),
{
    broadcast use group_to_multiset_ensures;

    let digest = |batch: ExecutedView| batch.digest;
    let none = Seq::<ExecutedView>::empty();
    assert(none.map_values(digest) =~= Seq::<Digest>::empty());
    assert(executed_digests(none) =~= Multiset::<Digest>::empty());
    assert(seq![batch].map_values(digest) =~= Seq::<Digest>::empty().push(batch.digest));
    assert(executed_digests(seq![batch]) =~= Multiset::singleton(batch.digest));
}

proof fn lemma_queued_digests_push(pending: Seq<PendingView>, entry: PendingView)
    ensures
        queued_digests(pending.push(entry)) == queued_digests(pending).insert(entry.digest),
{
    broadcast use group_to_multiset_ensures;

    let digest = |entry: PendingView| entry.digest;
    assert(pending.push(entry).map_values(digest) =~= pending.map_values(digest).push(
        entry.digest,
    ));
}

proof fn lemma_queued_digests_pop(pending: Seq<PendingView>)
    requires
        pending.len() > 0,
    ensures
        queued_digests(pending) == queued_digests(pending.drop_first()).insert(pending[0].digest),
{
    broadcast use group_to_multiset_ensures;

    let digest = |entry: PendingView| entry.digest;
    let rest = pending.drop_first();
    let front = Seq::<Digest>::empty().push(pending[0].digest);
    assert(pending.map_values(digest) =~= front + rest.map_values(digest));
    lemma_multiset_commutative(front, rest.map_values(digest));
    assert(front.to_multiset() =~= Multiset::singleton(pending[0].digest));
    assert(queued_digests(pending) =~= queued_digests(rest).insert(pending[0].digest));
}

proof fn lemma_retry_front_conserves(view: ExecutorView)
    requires
        view.pending.len() > 0,
    ensures
        executed_digests(view.retry_front().1).add(queued_digests(view.retry_front().0.pending))
            == queued_digests(view.pending),
        view.retry_front().0.executed == view.executed,
{
    let front = view.pending[0];
    let rest = view.pending.drop_first();
    let popped = ExecutorView {
        pending: rest,
        counts: untrack(view.counts, front.dependencies),
        ..view
    };
    let (next, executed) = popped.execute(front.digest, front.batch, front.pair_count);
    lemma_execute_keeps(popped, front.digest, front.batch, front.pair_count);
    lemma_executed_digests_few(executed);
    lemma_queued_digests_pop(view.pending);
    let (after, more) = view.retry_front();
    if !all_processed(front.dependencies, view.processed) {
        lemma_queued_digests_push(rest, after.pending.last());
        assert(after.pending =~= rest.push(after.pending.last()));
    }
    assert(executed_digests(more).add(queued_digests(after.pending)) =~= queued_digests(
        view.pending,
    ));
}

proof fn lemma_retry_first_conserves(view: ExecutorView, n: nat)
    requires
        n <= view.pending.len(),
    ensures
        executed_digests(view.retry_first(n).1).add(queued_digests(view.retry_first(n).0.pending))
            == queued_digests(view.pending),
        view.retry_first(n).0.executed == view.executed,
    decreases n,
{
    if n == 0 {
        lemma_executed_digests_few(arbitrary());
        assert(executed_digests(Seq::empty()).add(queued_digests(view.pending)) =~= queued_digests(
            view.pending,
        ));
    } else {
        let (before, done) = view.retry_first((n - 1) as nat);
        let (next, more) = before.retry_front();
        lemma_retry_first_conserves(view, (n - 1) as nat);
        lemma_retry_first_len(view, (n - 1) as nat);
        lemma_retry_front_conserves(before);
        lemma_executed_digests_add(done, more);
        assert(executed_digests(done + more).add(queued_digests(next.pending)) =~= executed_digests(
            done,
        ).add(executed_digests(more).add(queued_digests(next.pending))));
    }
}

proof fn lemma_retry_conserves(view: ExecutorView)
    ensures
        executed_digests(view.retry().1).add(queued_digests(view.retry().0.pending))
            == queued_digests(view.pending),
        view.retry().0.executed == view.executed,
    decreases view.pending.len(),
{
    if view.pending.len() == 0 {
        lemma_retry_first_conserves(view, 0);
    } else {
        let (next, done) = view.retry_first(view.pending.len());
        lemma_retry_first_conserves(view, view.pending.len());
        lemma_retry_first_len(view, view.pending.len());
        if done.len() > 0 {
            let (end, more) = next.retry();
            lemma_retry_conserves(next);
            lemma_executed_digests_add(done, more);
            assert(executed_digests(done + more).add(queued_digests(end.pending))
                =~= executed_digests(done).add(
                executed_digests(more).add(queued_digests(end.pending)),
            ));
        }
    }
}

/// No batch is lost, and none is executed twice: what was queued, together with the batch that is
/// handled, is what is executed together with what is queued then. What was taken on stays taken
/// on.
pub proof fn lemma_batches_are_conserved(view: ExecutorView, digest: Digest, batch: BatchView)
    ensures
        ({
            let (next, executed) = view.handle(digest, batch);
            &&& executed_digests(executed).add(queued_digests(next.pending)) == queued_digests(
                view.pending,
            ).insert(digest)
            &&& next.executed == view.executed
        }),
{
    let (next, executed) = view.handle(digest, batch);
    let current = ExecutorView {
        latest: if view.latest >= batch.sequence {
            view.latest
        } else {
            batch.sequence
        },
        ..view
    };
    let dependencies = ascending_list(external_dependencies(batch));
    let pair_count = internal_pairs(batch).len() as usize;
    lemma_executed_digests_few(executed[0]);
    if all_processed(dependencies, view.processed) {
        let (after, first) = current.execute(digest, batch, pair_count);
        let (end, more) = after.retry();
        lemma_execute_keeps(current, digest, batch, pair_count);
        lemma_retry_conserves(after);
        lemma_executed_digests_add(seq![first], more);
        lemma_executed_digests_few(first);
        assert(executed_digests(executed).add(queued_digests(next.pending)) =~= queued_digests(
            view.pending,
        ).insert(digest));
    } else {
        lemma_queued_digests_push(view.pending, next.pending.last());
        assert(next.pending =~= view.pending.push(next.pending.last()));
        assert(executed_digests(executed).add(queued_digests(next.pending)) =~= queued_digests(
            view.pending,
        ).insert(digest));
    }
}

/// Every queued batch waits for a transaction that was not executed, or is not remembered.
pub open spec fn none_ready(pending: Seq<PendingView>, processed: Set<u64>) -> bool {
    forall|i: int|
        0 <= i < pending.len() ==> !all_processed(
            (#[trigger] pending[i]).dependencies,
            processed,
        )
}

proof fn lemma_stalled_round(view: ExecutorView, n: nat)
    requires
        n <= view.pending.len(),
        view.retry_first(n).1.len() == 0,
    ensures
        ({
            let next = view.retry_first(n).0;
            &&& next.processed == view.processed
            &&& next.pending.len() == view.pending.len()
            &&& forall|i: int|
                0 <= i < view.pending.len() - n ==> #[trigger] next.pending[i] == view.pending[i
                    + n]
            &&& forall|i: int|
                view.pending.len() - n <= i < view.pending.len() ==> !all_processed(
                    (#[trigger] next.pending[i]).dependencies,
                    view.processed,
                )
        }),
    decreases n,
{
    if n > 0 {
        let (before, done) = view.retry_first((n - 1) as nat);
        let (next, more) = before.retry_front();
        assert((done + more).len() == done.len() + more.len());
        lemma_stalled_round(view, (n - 1) as nat);
        assert(!all_processed(before.pending[0].dependencies, before.processed));
        assert forall|i: int| 0 <= i < view.pending.len() - n implies #[trigger] next.pending[i]
            == view.pending[i + n] by {
            assert(next.pending[i] == before.pending[i + 1]);
        }
        assert forall|i: int|
            view.pending.len() - n <= i < view.pending.len() implies !all_processed(
            (#[trigger] next.pending[i]).dependencies,
            view.processed,
        ) by {
            if i < view.pending.len() - 1 {
                assert(next.pending[i] == before.pending[i + 1]);
            }
        }
    }
}

proof fn lemma_retry_leaves_none_ready(view: ExecutorView)
    ensures
        none_ready(view.retry().0.pending, view.retry().0.processed),
    decreases view.pending.len(),
{
    if view.pending.len() > 0 {
        let (next, done) = view.retry_first(view.pending.len());
        lemma_retry_first_len(view, view.pending.len());
        if done.len() == 0 {
            lemma_stalled_round(view, view.pending.len());
        } else {
            lemma_retry_leaves_none_ready(next);
        }
    }
}

/// No batch stays in the queue that could be executed.
pub proof fn lemma_no_ready_batch_waits(view: ExecutorView, digest: Digest, batch: BatchView)
    requires
        none_ready(view.pending, view.processed),
    ensures
        none_ready(view.handle(digest, batch).0.pending, view.handle(digest, batch).0.processed),
{
    let dependencies = ascending_list(external_dependencies(batch));
    let next = view.handle(digest, batch).0;
    if all_processed(dependencies, view.processed) {
        let current = ExecutorView {
            latest: if view.latest >= batch.sequence {
                view.latest
            } else {
                batch.sequence
            },
            ..view
        };
        let after = current.execute(digest, batch, internal_pairs(batch).len() as usize).0;
        lemma_retry_leaves_none_ready(after);
    } else {
        assert forall|i: int| 0 <= i < next.pending.len() implies !all_processed(
            (#[trigger] next.pending[i]).dependencies,
            next.processed,
        ) by {
            if i < view.pending.len() {
                assert(next.pending[i] == view.pending[i]);
            }
        }
    }
}

} // verus!
