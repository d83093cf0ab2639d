//! What an executor guarantees: nothing is executed before what it waits for, nothing waits for
//! longer than it has to, and nothing is lost on the way.

use vstd::prelude::*;
use crate::batch::{BatchView, Digest};
use crate::channels::Refusal;
use crate::control::{describes, ControlView, InfoView};
use crate::execution::{
    executed_transactions, external_dependencies, internal_pairs, is_external,
};
use crate::executor::{flushed, may_observe};
use crate::executor_model::{
    all_processed, ascending_list, bump, forgets_oldest, lemma_execute_keeps,
    lemma_no_ready_batch_waits, lemma_remember_each, lemma_retry_first_len, none_ready, trimmed,
    ExecutedView, ExecutorView, PendingView,
};
use crate::ordered::{ascending, lemma_ascending_exists};
use crate::transaction::{standard_ids, tx_ids};

verus! {

/// A missing pair joins `id`, which is not in the batch, to a transaction of the batch.
pub open spec fn waits_for(batch: BatchView, id: u64) -> bool {
    &&& !tx_ids(batch.transactions).contains(id)
    &&& exists|other: u64| #[trigger]
        tx_ids(batch.transactions).contains(other) && (batch.missing_edges.contains((id, other))
            || batch.missing_edges.contains((other, id)))
}

/// A batch depends on the outside ends of its missing pairs, and on nothing else.
pub proof fn lemma_dependencies_are_the_outside_ends(batch: BatchView, id: u64)
    ensures
        external_dependencies(batch).contains(id) <==> waits_for(batch, id),
{
    let ids = tx_ids(batch.transactions);
    if external_dependencies(batch).contains(id) {
        let k = choose|k: int| #[trigger] is_external(batch, id, k);
        let (left, right) = batch.missing_edges[k];
        assert(batch.missing_edges.contains((left, right)));
        if id == right && ids.contains(left) {
            assert(ids.contains(left));
        } else {
            assert(ids.contains(right));
        }
    }
    if waits_for(batch, id) {
        let other = choose|other: u64| #[trigger]
            ids.contains(other) && (batch.missing_edges.contains((id, other))
                || batch.missing_edges.contains((other, id)));
        if batch.missing_edges.contains((id, other)) {
            let k = choose|k: int|
                0 <= k < batch.missing_edges.len() && batch.missing_edges[k] == (id, other);
            assert(is_external(batch, id, k));
        } else {
            let k = choose|k: int|
                0 <= k < batch.missing_edges.len() && batch.missing_edges[k] == (other, id);
            assert(is_external(batch, id, k));
        }
    }
}

/// The list of the dependencies of a batch has all of them, and nothing else.
proof fn lemma_listed_dependencies(batch: BatchView)
    ensures
        forall|id: u64| #[trigger]
            ascending_list(external_dependencies(batch)).contains(id) <==> waits_for(batch, id),
        ascending(ascending_list(external_dependencies(batch))),
{
    let set = external_dependencies(batch);
    lemma_ascending_list_of(set);
    assert forall|id: u64| #[trigger] ascending_list(set).contains(id) <==> waits_for(batch, id) by {
        lemma_dependencies_are_the_outside_ends(batch, id);
        assert(ascending_list(set).to_set().contains(id) <==> ascending_list(set).contains(id));
    }
}

/// Every set of identifiers has an ascending list.
proof fn lemma_ascending_list_of(set: Set<u64>)
    ensures
        ascending(ascending_list(set)),
        ascending_list(set).to_set() == set,
{
    broadcast use vstd::set_lib::full_set_properties;
    vstd::set_lib::lemma_set_subset_finite(Set::<u64>::full(), set);
    let list = lemma_ascending_exists(set);
    assert(ascending(list) && list.to_set() == set);
}

/// What a queued batch is noted to wait for is what it waits for.
pub open spec fn notes_own(entry: PendingView) -> bool {
    forall|id: u64|
        #![trigger entry.dependencies.contains(id)]
        #![trigger waits_for(entry.batch, id)]
        entry.dependencies.contains(id) <==> waits_for(entry.batch, id)
}

/// So it is with each batch of the queue.
pub open spec fn notes_dependencies(pending: Seq<PendingView>) -> bool {
    forall|i: int| 0 <= i < pending.len() ==> notes_own(#[trigger] pending[i])
}

/// All that a batch waits for is in `processed`.
pub open spec fn nothing_missing(batch: BatchView, processed: Set<u64>) -> bool {
    forall|id: u64| #[trigger] waits_for(batch, id) ==> processed.contains(id)
}

/// The listed dependencies are executed if and only if each of their members is.
proof fn lemma_all_processed(dependencies: Seq<u64>, processed: Set<u64>)
    ensures
        all_processed(dependencies, processed) <==> forall|id: u64| #[trigger]
            dependencies.contains(id) ==> processed.contains(id),
{
    if all_processed(dependencies, processed) {
        assert forall|id: u64| #[trigger] dependencies.contains(id) implies processed.contains(id) by {
            let i = choose|i: int| 0 <= i < dependencies.len() && dependencies[i] == id;
            assert(processed.contains(dependencies[i]));
        }
    }
    if forall|id: u64| #[trigger] dependencies.contains(id) ==> processed.contains(id) {
        assert forall|i: int| 0 <= i < dependencies.len() implies processed.contains(
            #[trigger] dependencies[i],
        ) by {
            assert(dependencies.contains(dependencies[i]));
        }
    }
}

/// The first batch of the queue is executed exactly if all that it waits for was executed and is
/// remembered.
pub proof fn lemma_front_is_executed_when_ready(view: ExecutorView)
    requires
        notes_dependencies(view.pending),
        view.pending.len() > 0,
    ensures
        nothing_missing(view.pending[0].batch, view.processed) ==> view.retry_front().1.len() == 1,
        !nothing_missing(view.pending[0].batch, view.processed) ==> view.retry_front().1.len() == 0,
{
    let front = view.pending[0];
    lemma_all_processed(front.dependencies, view.processed);
    assert(notes_own(front));
}

/// One of the batches that were executed reports `id`.
pub open spec fn reported(executed: Seq<ExecutedView>, id: u64) -> bool {
    exists|j: int| 0 <= j < executed.len() && (#[trigger] executed[j]).processed.contains(id)
}

/// `done` is what comes of executing `batch`: its transactions, and the standard ones among them.
pub open spec fn is_execution_of(done: ExecutedView, digest: Digest, batch: BatchView) -> bool {
    &&& done.digest == digest
    &&& done.transactions == executed_transactions(batch)
    &&& ascending(done.processed)
    &&& done.processed.to_set() == standard_ids(done.transactions)
}

/// Entry `k` of `executed` is the execution of `batch`, and all that it waits for was in
/// `processed` or was executed before it.
pub open spec fn is_in_time(
    executed: Seq<ExecutedView>,
    k: int,
    digest: Digest,
    batch: BatchView,
    processed: Set<u64>,
) -> bool {
    &&& is_execution_of(executed[k], digest, batch)
    &&& forall|id: u64| #[trigger]
        waits_for(batch, id) ==> processed.contains(id) || reported(executed.take(k), id)
}

/// The same batch waits in `pending`.
spec fn is_queued(pending: Seq<PendingView>, digest: Digest, batch: BatchView) -> bool {
    exists|i: int|
        0 <= i < pending.len() && (#[trigger] pending[i]).digest == digest && pending[i].batch
            == batch
}

/// Each batch of `pending` waits in `before`, and is noted with its dependencies.
spec fn is_rest_of(pending: Seq<PendingView>, before: Seq<PendingView>) -> bool {
    &&& notes_dependencies(pending)
    &&& forall|i: int|
        0 <= i < pending.len() ==> is_queued(
            before,
            (#[trigger] pending[i]).digest,
            pending[i].batch,
        )
}

/// Entry `k` of `executed` was queued in `pending`, and executed in time.
pub open spec fn is_in_time_from(
    executed: Seq<ExecutedView>,
    k: int,
    pending: Seq<PendingView>,
    processed: Set<u64>,
) -> bool {
    exists|i: int|
        0 <= i < pending.len() && is_in_time(
            executed,
            k,
            (#[trigger] pending[i]).digest,
            pending[i].batch,
            processed,
        )
}

/// From `before` to `after` the batches `executed` were taken from the queue, each in time, and
/// nothing was remembered but what they report.
spec fn carries(before: ExecutorView, after: ExecutorView, executed: Seq<ExecutedView>) -> bool {
    &&& is_rest_of(after.pending, before.pending)
    &&& forall|k: int|
        0 <= k < executed.len() ==> #[trigger] is_in_time_from(
            executed,
            k,
            before.pending,
            before.processed,
        )
    &&& forall|id: u64| #[trigger]
        after.processed.contains(id) ==> before.processed.contains(id) || reported(executed, id)
}

proof fn lemma_reported_in_part(executed: Seq<ExecutedView>, more: Seq<ExecutedView>, id: u64)
    ensures
        reported(executed, id) ==> reported(executed + more, id),
        reported(more, id) ==> reported(executed + more, id),
{
    let all = executed + more;
    if reported(executed, id) {
        let j = choose|j: int|
            0 <= j < executed.len() && (#[trigger] executed[j]).processed.contains(id);
        assert(all[j] == executed[j]);
    }
    if reported(more, id) {
        let j = choose|j: int| 0 <= j < more.len() && (#[trigger] more[j]).processed.contains(id);
        assert(all[j + executed.len()] == more[j]);
    }
}

proof fn lemma_carries_on(
    before: ExecutorView,
    mid: ExecutorView,
    after: ExecutorView,
    executed: Seq<ExecutedView>,
    more: Seq<ExecutedView>,
)
    requires
        carries(before, mid, executed),
        carries(mid, after, more),
    ensures
        carries(before, after, executed + more),
{
    let all = executed + more;
    assert forall|i: int| 0 <= i < after.pending.len() implies is_queued(
        before.pending,
        (#[trigger] after.pending[i]).digest,
        after.pending[i].batch,
    ) by {
        assert(is_queued(mid.pending, after.pending[i].digest, after.pending[i].batch));
        let l = choose|l: int|
            0 <= l < mid.pending.len() && (#[trigger] mid.pending[l]).digest
                == after.pending[i].digest && mid.pending[l].batch == after.pending[i].batch;
        assert(is_queued(before.pending, mid.pending[l].digest, mid.pending[l].batch));
    }
    assert forall|k: int| 0 <= k < all.len() implies #[trigger] is_in_time_from(
        all,
        k,
        before.pending,
        before.processed,
    ) by {
        if k < executed.len() {
            assert(is_in_time_from(executed, k, before.pending, before.processed));
            assert(all.take(k) =~= executed.take(k));
            assert(all[k] == executed[k]);
            let i = choose|i: int|
                0 <= i < before.pending.len() && is_in_time(
                    executed,
                    k,
                    (#[trigger] before.pending[i]).digest,
                    before.pending[i].batch,
                    before.processed,
                );
            assert(is_in_time(
                all,
                k,
                before.pending[i].digest,
                before.pending[i].batch,
                before.processed,
            ));
        } else {
            let m = k - executed.len();
            assert(is_in_time_from(more, m, mid.pending, mid.processed));
            let l = choose|l: int|
                0 <= l < mid.pending.len() && is_in_time(
                    more,
                    m,
                    (#[trigger] mid.pending[l]).digest,
                    mid.pending[l].batch,
                    mid.processed,
                );
            let entry = mid.pending[l];
            assert(is_queued(before.pending, entry.digest, entry.batch));
            let i = choose|i: int|
                0 <= i < before.pending.len() && (#[trigger] before.pending[i]).digest
                    == entry.digest && before.pending[i].batch == entry.batch;
            assert(all[k] == more[m]);
            assert(all.take(k) =~= executed + more.take(m));
            assert forall|id: u64| #[trigger] waits_for(
                entry.batch,
                id,
            ) implies before.processed.contains(id) || reported(all.take(k), id) by {
                lemma_reported_in_part(executed, more.take(m), id);
                if mid.processed.contains(id) {
                }
            }
            assert(is_in_time(
                all,
                k,
                before.pending[i].digest,
                before.pending[i].batch,
                before.processed,
            ));
        }
    }
    assert forall|id: u64| #[trigger] after.processed.contains(id) implies before.processed.contains(
        id,
    ) || reported(all, id) by {
        lemma_reported_in_part(executed, more, id);
        if mid.processed.contains(id) {
        }
    }
}

/// Nothing is remembered as executed but what was before and what is reported.
proof fn lemma_remembers_only(view: ExecutorView, ids: Seq<u64>)
    ensures
        forall|id: u64| #[trigger]
            view.remember(ids).processed.contains(id) ==> view.processed.contains(id)
                || ids.contains(id),
{
    let noted = view.remember_each(ids);
    lemma_remembers_each_only(view, ids);
    lemma_trims_only(
        noted.processed_fifo,
        noted.processed,
        noted.counts.dom(),
        crate::executor_model::MAX_PROCESSED_TX_IDS as nat,
        0,
    );
    assert forall|id: u64| #[trigger]
        view.remember(ids).processed.contains(id) implies view.processed.contains(id)
        || ids.contains(id) by {
        assert(noted.processed.contains(id));
    }
}

proof fn lemma_remembers_each_only(view: ExecutorView, ids: Seq<u64>)
    ensures
        forall|id: u64| #[trigger]
            view.remember_each(ids).processed.contains(id) ==> view.processed.contains(id)
                || ids.contains(id),
    decreases ids.len(),
{
    if ids.len() > 0 {
        let fewer = ids.drop_last();
        lemma_remembers_each_only(view, fewer);
        crate::ordered::lemma_push_contains(fewer, ids.last());
        assert(ids =~= fewer.push(ids.last()));
        assert forall|id: u64| #[trigger]
            view.remember_each(ids).processed.contains(id) implies view.processed.contains(id)
            || ids.contains(id) by {
            assert(view.remember_each(fewer).processed.contains(id) || id == ids.last());
            assert(fewer.push(ids.last()).contains(id) <==> fewer.contains(id) || id == ids.last());
        }
    }
}

proof fn lemma_trims_only(
    fifo: Seq<u64>,
    processed: Set<u64>,
    needed: Set<u64>,
    cap: nat,
    scanned: nat,
)
    ensures
        trimmed(fifo, processed, needed, cap, scanned).1.subset_of(processed),
    decreases fifo.len(), fifo.len() - scanned,
{
    if fifo.len() > cap && scanned < fifo.len() {
        let oldest = fifo[0];
        if needed.contains(oldest) {
            lemma_trims_only(
                fifo.drop_first().push(oldest),
                processed,
                needed,
                cap,
                scanned + 1,
            );
        } else {
            lemma_trims_only(fifo.drop_first(), processed.remove(oldest), needed, cap, 0);
        }
    }
}

proof fn lemma_execution(view: ExecutorView, digest: Digest, batch: BatchView, pairs: usize)
    ensures
        ({
            let (next, done) = view.execute(digest, batch, pairs);
            &&& is_execution_of(done, digest, batch)
            &&& forall|id: u64| #[trigger]
                next.processed.contains(id) ==> view.processed.contains(id)
                    || done.processed.contains(id)
        }),
{
    lemma_ascending_list_of(standard_ids(executed_transactions(batch)));
    lemma_remembers_only(
        view.count_fallback(pairs),
        ascending_list(standard_ids(executed_transactions(batch))),
    );
}

proof fn lemma_retry_front_carries(view: ExecutorView)
    requires
        notes_dependencies(view.pending),
        view.pending.len() > 0,
    ensures
        carries(view, view.retry_front().0, view.retry_front().1),
{
    let front = view.pending[0];
    let rest = view.pending.drop_first();
    let (next, executed) = view.retry_front();
    assert(notes_own(front));
    lemma_all_processed(front.dependencies, view.processed);
    let popped = ExecutorView {
        pending: rest,
        counts: crate::executor_model::untrack(view.counts, front.dependencies),
        ..view
    };
    lemma_execution(popped, front.digest, front.batch, front.pair_count);
    lemma_execute_keeps(popped, front.digest, front.batch, front.pair_count);
    assert forall|i: int| 0 <= i < next.pending.len() implies notes_own(#[trigger] next.pending[i])
        && is_queued(view.pending, next.pending[i].digest, next.pending[i].batch) by {
        if i < rest.len() {
            assert(next.pending[i] == view.pending[i + 1]);
        } else {
            let delayed = next.pending[i];
            assert(delayed.dependencies == front.dependencies && delayed.batch == front.batch);
            assert(view.pending[0].digest == delayed.digest);
            assert forall|id: u64|
                delayed.dependencies.contains(id) <==> waits_for(delayed.batch, id) by {
                assert(front.dependencies.contains(id) <==> waits_for(front.batch, id));
            }
        }
    }
    if all_processed(front.dependencies, view.processed) {
        let done = executed[0];
        assert(executed =~= seq![done]);
        assert(is_in_time(executed, 0, view.pending[0].digest, view.pending[0].batch, view.processed));
        assert(is_in_time_from(executed, 0, view.pending, view.processed));
        assert forall|id: u64| #[trigger]
            next.processed.contains(id) implies view.processed.contains(id) || reported(
            executed,
            id,
        ) by {
            if done.processed.contains(id) {
                assert(executed[0].processed.contains(id));
            }
        }
    }
}

proof fn lemma_carries_nothing(view: ExecutorView)
    requires
        notes_dependencies(view.pending),
    ensures
        carries(view, view, Seq::empty()),
{
    assert forall|i: int| 0 <= i < view.pending.len() implies is_queued(
        view.pending,
        (#[trigger] view.pending[i]).digest,
        view.pending[i].batch,
    ) by {}
}

proof fn lemma_retry_first_carries(view: ExecutorView, n: nat)
    requires
        notes_dependencies(view.pending),
        n <= view.pending.len(),
    ensures
        carries(view, view.retry_first(n).0, view.retry_first(n).1),
    decreases n,
{
    if n == 0 {
        lemma_carries_nothing(view);
    } else {
        let (before, done) = view.retry_first((n - 1) as nat);
        let (next, more) = before.retry_front();
        lemma_retry_first_carries(view, (n - 1) as nat);
        lemma_retry_first_len(view, (n - 1) as nat);
        lemma_retry_front_carries(before);
        lemma_carries_on(view, before, next, done, more);
    }
}

proof fn lemma_retry_carries(view: ExecutorView)
    requires
        notes_dependencies(view.pending),
    ensures
        carries(view, view.retry().0, view.retry().1),
    decreases view.pending.len(),
{
    if view.pending.len() == 0 {
        lemma_carries_nothing(view);
    } else {
        let (next, done) = view.retry_first(view.pending.len());
        lemma_retry_first_carries(view, view.pending.len());
        lemma_retry_first_len(view, view.pending.len());
        if done.len() > 0 {
            lemma_retry_carries(next);
            lemma_carries_on(view, next, next.retry().0, done, next.retry().1);
        }
    }
}

/// A batch that is handled is executed at once exactly if all that it waits for was executed and is
/// remembered; otherwise it is queued, and nothing is executed.
pub proof fn lemma_batch_is_executed_when_ready(
    view: ExecutorView,
    digest: Digest,
    batch: BatchView,
)
    requires
        notes_dependencies(view.pending),
    ensures
        nothing_missing(batch, view.processed) ==> view.handle(digest, batch).1.len() > 0
            && is_execution_of(view.handle(digest, batch).1[0], digest, batch),
        !nothing_missing(batch, view.processed) ==> view.handle(digest, batch).1.len() == 0
            && view.handle(digest, batch).0.pending.len() == view.pending.len() + 1
            && view.handle(digest, batch).0.pending.last().digest == digest
            && view.handle(digest, batch).0.pending.last().batch == batch && view.handle(
            digest,
            batch,
        ).0.processed == view.processed,
        notes_dependencies(view.handle(digest, batch).0.pending),
{
    let dependencies = ascending_list(external_dependencies(batch));
    let (end, executed) = view.handle(digest, batch);
    lemma_listed_dependencies(batch);
    lemma_all_processed(dependencies, view.processed);
    let current = ExecutorView {
        latest: if view.latest >= batch.sequence {
            view.latest
        } else {
            batch.sequence
        },
        ..view
    };
    if all_processed(dependencies, view.processed) {
        let pairs = internal_pairs(batch).len() as usize;
        let next = current.execute(digest, batch, pairs).0;
        lemma_execution(current, digest, batch, pairs);
        lemma_execute_keeps(current, digest, batch, pairs);
        lemma_retry_carries(next);
        assert forall|id: u64| #[trigger] waits_for(batch, id) implies view.processed.contains(id) by {
            assert(dependencies.contains(id));
        }
    } else {
        let entry = end.pending.last();
        assert(notes_own(entry));
        assert forall|i: int| 0 <= i < end.pending.len() implies notes_own(
            #[trigger] end.pending[i],
        ) by {
            if i < view.pending.len() {
                assert(end.pending[i] == view.pending[i]);
            }
        }
        let id = choose|id: u64| #[trigger]
            dependencies.contains(id) && !view.processed.contains(id);
        assert(waits_for(batch, id));
    }
}

/// Whatever is executed is the batch that is handled or one that was queued, and it is executed in
/// time: each transaction outside of it that forms a missing pair with one of its own was
/// remembered as executed, or was executed just before.
pub proof fn lemma_dependencies_come_first(
    view: ExecutorView,
    digest: Digest,
    batch: BatchView,
    k: int,
)
    requires
        notes_dependencies(view.pending),
        0 <= k < view.handle(digest, batch).1.len(),
    ensures
        is_in_time(view.handle(digest, batch).1, k, digest, batch, view.processed)
            || is_in_time_from(view.handle(digest, batch).1, k, view.pending, view.processed),
{
    let (end, executed) = view.handle(digest, batch);
    lemma_batch_is_executed_when_ready(view, digest, batch);
    let current = ExecutorView {
        latest: if view.latest >= batch.sequence {
            view.latest
        } else {
            batch.sequence
        },
        ..view
    };
    let pairs = internal_pairs(batch).len() as usize;
    let (next, first) = current.execute(digest, batch, pairs);
    let more = next.retry().1;
    lemma_execution(current, digest, batch, pairs);
    lemma_execute_keeps(current, digest, batch, pairs);
    lemma_retry_carries(next);
    assert(executed =~= seq![first] + more);
    if k == 0 {
        assert(is_in_time(executed, 0, digest, batch, view.processed));
    } else {
        let m = k - 1;
        assert(is_in_time_from(more, m, next.pending, next.processed));
        let i = choose|i: int|
            0 <= i < next.pending.len() && is_in_time(
                more,
                m,
                (#[trigger] next.pending[i]).digest,
                next.pending[i].batch,
                next.processed,
            );
        assert(next.pending[i] == view.pending[i]);
        assert(executed[k] == more[m]);
        assert(executed.take(k) =~= seq![first] + more.take(m));
        assert forall|id: u64| #[trigger] waits_for(
            view.pending[i].batch,
            id,
        ) implies view.processed.contains(id) || reported(executed.take(k), id) by {
            lemma_reported_in_part(seq![first], more.take(m), id);
            if next.processed.contains(id) && !view.processed.contains(id) {
                assert(first.processed.contains(id));
                assert(seq![first][0].processed.contains(id));
                assert(reported(seq![first], id));
            }
        }
        assert(is_in_time(
            executed,
            k,
            view.pending[i].digest,
            view.pending[i].batch,
            view.processed,
        ));
    }
}

proof fn lemma_stalls(view: ExecutorView, n: nat)
    requires
        notes_dependencies(view.pending),
        n <= view.pending.len(),
        forall|j: int|
            0 <= j < n ==> !nothing_missing((#[trigger] view.pending[j]).batch, view.processed),
    ensures
        ({
            let (next, done) = view.retry_first(n);
            &&& done.len() == 0
            &&& next.processed == view.processed
            &&& next.pending.len() == view.pending.len()
            &&& forall|i: int|
                0 <= i < view.pending.len() - n ==> #[trigger] next.pending[i] == view.pending[i
                    + n]
            &&& forall|i: int|
                view.pending.len() - n <= i < view.pending.len() ==> has_stalled(
                    view.pending[i + n - view.pending.len()],
                    #[trigger] next.pending[i],
                )
        }),
    decreases n,
{
    if n > 0 {
        let (before, done) = view.retry_first((n - 1) as nat);
        let (next, more) = before.retry_front();
        lemma_stalls(view, (n - 1) as nat);
        let front = view.pending[n - 1];
        assert(before.pending[0] == front);
        assert(notes_own(front));
        lemma_all_processed(front.dependencies, view.processed);
        let id = choose|id: u64| #[trigger]
            waits_for(front.batch, id) && !view.processed.contains(id);
        assert(front.dependencies.contains(id));
        assert(!all_processed(front.dependencies, before.processed));
        assert forall|i: int| 0 <= i < view.pending.len() - n implies #[trigger] next.pending[i]
            == view.pending[i + n] by {
            assert(next.pending[i] == before.pending[i + 1]);
        }
        assert forall|i: int|
            view.pending.len() - n <= i < view.pending.len() implies has_stalled(
            view.pending[i + n - view.pending.len()],
            #[trigger] next.pending[i],
        ) by {
            if i < view.pending.len() - 1 {
                assert(next.pending[i] == before.pending[i + 1]);
            }
        }
    }
}

/// The same batch as before, which has waited for one round more.
pub open spec fn has_stalled(before: PendingView, after: PendingView) -> bool {
    &&& after.digest == before.digest
    &&& after.batch == before.batch
    &&& after.dependencies == before.dependencies
    &&& after.pair_count == before.pair_count
    &&& after.first_seen == before.first_seen
    &&& before.stalled_rounds < u32::MAX ==> after.stalled_rounds == before.stalled_rounds + 1
    &&& before.stalled_rounds == u32::MAX ==> after.stalled_rounds == u32::MAX
}

/// Of the queued batches that have all they wait for, the one that was queued first is executed
/// first.
pub proof fn lemma_first_ready_goes_first(view: ExecutorView, i: int)
    requires
        notes_dependencies(view.pending),
        0 <= i < view.pending.len(),
        nothing_missing(view.pending[i].batch, view.processed),
        forall|j: int|
            0 <= j < i ==> !nothing_missing((#[trigger] view.pending[j]).batch, view.processed),
    ensures
        view.retry().1.len() > 0,
        is_execution_of(view.retry().1[0], view.pending[i].digest, view.pending[i].batch),
{
    let n = view.pending.len();
    let entry = view.pending[i];
    lemma_stalls(view, i as nat);
    let before = view.retry_first(i as nat).0;
    assert(before.pending[0] == view.pending[0 + i]);
    assert(notes_own(entry));
    lemma_all_processed(entry.dependencies, view.processed);
    let popped = ExecutorView {
        pending: before.pending.drop_first(),
        counts: crate::executor_model::untrack(before.counts, entry.dependencies),
        ..before
    };
    lemma_execution(popped, entry.digest, entry.batch, entry.pair_count);
    let first = view.retry_first((i + 1) as nat).1;
    assert(first.len() == 1 && is_execution_of(first[0], entry.digest, entry.batch));
    lemma_retry_prefix(view, (i + 1) as nat, n);
    let (next, done) = view.retry_first(n);
    assert(done.take(first.len() as int)[0] == done[0]);
    assert(view.retry().1[0] == done[0]);
}

proof fn lemma_retry_prefix(view: ExecutorView, m: nat, n: nat)
    requires
        m <= n,
    ensures
        view.retry_first(m).1.len() <= view.retry_first(n).1.len(),
        view.retry_first(n).1.take(view.retry_first(m).1.len() as int) == view.retry_first(m).1,
    decreases n,
{
    let first = view.retry_first(m).1;
    if m < n {
        lemma_retry_prefix(view, m, (n - 1) as nat);
        let done = view.retry_first((n - 1) as nat).1;
        assert(view.retry_first(n).1.take(first.len() as int) =~= done.take(first.len() as int));
    } else {
        assert(first.take(first.len() as int) =~= first);
    }
}

/// Where no queued batch has all that it waits for, the queue stays in its order, and each batch has
/// waited for one round more.
pub proof fn lemma_waiting_batches_keep_their_order(view: ExecutorView)
    requires
        notes_dependencies(view.pending),
        view.pending.len() > 0,
        forall|j: int|
            0 <= j < view.pending.len() ==> !nothing_missing(
                (#[trigger] view.pending[j]).batch,
                view.processed,
            ),
    ensures
        view.retry().1.len() == 0,
        view.retry().0.pending.len() == view.pending.len(),
        forall|i: int|
            0 <= i < view.pending.len() ==> has_stalled(
                view.pending[i],
                #[trigger] view.retry().0.pending[i],
            ),
        view.retry().0.processed == view.processed,
{
    lemma_stalls(view, view.pending.len());
    let next = view.retry_first(view.pending.len()).0;
    assert(view.retry().0.pending == next.pending);
    assert forall|i: int| 0 <= i < view.pending.len() implies has_stalled(
        view.pending[i],
        #[trigger] view.retry().0.pending[i],
    ) by {
        assert(has_stalled(view.pending[i], next.pending[i]));
    }
}

/// A batch that is executed in spite of open pairs of its own is counted, and so are the pairs.
/// Where it has none, nothing is counted.
pub proof fn lemma_own_open_pairs_are_counted(view: ExecutorView, pairs: usize)
    requires
        view.fallback_batches < u64::MAX,
        view.fallback_pairs + pairs <= u64::MAX,
    ensures
        view.count_fallback(pairs).fallback_pairs == view.fallback_pairs + pairs,
        pairs > 0 ==> view.count_fallback(pairs).fallback_batches == view.fallback_batches + 1,
        pairs == 0 ==> view.count_fallback(pairs) == view,
        view.count_fallback(pairs).processed == view.processed,
        view.count_fallback(pairs).pending == view.pending,
{
}

/// It is counted when what is remembered cannot be trimmed to its cap.
pub proof fn lemma_blocked_trims_are_counted(view: ExecutorView, cap: nat)
    requires
        view.trim_blocked_events < u64::MAX,
    ensures
        view.trim(cap).trim_blocked_events == view.trim_blocked_events + (if view.trim(
            cap,
        ).processed_fifo.len() > cap {
            1int
        } else {
            0
        }),
        view.trim(cap).pending == view.pending,
        view.trim(cap).counts == view.counts,
        view.trim(cap).observations == view.observations,
{
}

/// Whatever is still queued waits for a transaction that is not remembered as executed.
pub proof fn lemma_queued_batches_miss_something(
    view: ExecutorView,
    digest: Digest,
    batch: BatchView,
    i: int,
)
    requires
        notes_dependencies(view.pending),
        forall|j: int|
            0 <= j < view.pending.len() ==> !nothing_missing(
                (#[trigger] view.pending[j]).batch,
                view.processed,
            ),
        0 <= i < view.handle(digest, batch).0.pending.len(),
    ensures
        !nothing_missing(
            view.handle(digest, batch).0.pending[i].batch,
            view.handle(digest, batch).0.processed,
        ),
{
    let end = view.handle(digest, batch).0;
    assert forall|j: int| 0 <= j < view.pending.len() implies !all_processed(
        (#[trigger] view.pending[j]).dependencies,
        view.processed,
    ) by {
        let entry = view.pending[j];
        assert(notes_own(entry));
        lemma_all_processed(entry.dependencies, view.processed);
        let id = choose|id: u64| #[trigger]
            waits_for(entry.batch, id) && !view.processed.contains(id);
        assert(entry.dependencies.contains(id));
    }
    assert(none_ready(view.pending, view.processed));
    lemma_no_ready_batch_waits(view, digest, batch);
    lemma_batch_is_executed_when_ready(view, digest, batch);
    let entry = end.pending[i];
    assert(notes_own(entry));
    assert(!all_processed(entry.dependencies, end.processed));
    lemma_all_processed(entry.dependencies, end.processed);
    let id = choose|id: u64| #[trigger]
        entry.dependencies.contains(id) && !end.processed.contains(id);
    assert(waits_for(entry.batch, id));
}

/// As long as there is room, all that is executed is remembered, and nothing is forgotten.
pub proof fn lemma_nothing_is_forgotten_while_there_is_room(view: ExecutorView, ids: Seq<u64>)
    requires
        view.valid(),
        view.processed_fifo.len() + ids.len() <= 65_536,
    ensures
        view.remember(ids).processed == view.processed.union(ids.to_set()),
{
    lemma_remember_each(view, ids);
    lemma_fifo_grows(view, ids);
}

proof fn lemma_fifo_grows(view: ExecutorView, ids: Seq<u64>)
    ensures
        view.remember_each(ids).processed_fifo.len() <= view.processed_fifo.len() + ids.len(),
    decreases ids.len(),
{
    if ids.len() > 0 {
        lemma_fifo_grows(view, ids.drop_last());
    }
}

/// Something is forgotten only where more than 65536 transactions would be remembered, and then no
/// more than it takes; what is forgotten is the oldest of what no queued batch waits for.
pub proof fn lemma_only_the_excess_is_forgotten(view: ExecutorView, ids: Seq<u64>)
    requires
        view.valid(),
    ensures
        view.remember(ids).processed_fifo.len() >= 65_536 || view.remember(ids).processed
            == view.processed.union(ids.to_set()),
        view.remember(ids).processed.subset_of(view.processed.union(ids.to_set())),
        forgets_oldest(
            view.remember_each(ids).processed_fifo,
            view.counts.dom(),
            view.remember(ids).processed,
        ),
        view.remember_each(ids).processed_fifo.to_set() == view.processed.union(ids.to_set()),
{
    let noted = view.remember_each(ids);
    let after = view.remember(ids);
    lemma_remember_each(view, ids);
    crate::executor_model::lemma_remember_each_keeps(view, ids);
    crate::executor_model::lemma_trimmed(
        noted.processed_fifo,
        noted.processed,
        noted.counts.dom(),
        crate::executor_model::MAX_PROCESSED_TX_IDS as nat,
        0,
    );
    if after.processed_fifo.len() < 65_536 {
        after.processed_fifo.unique_seq_to_set();
        noted.processed_fifo.unique_seq_to_set();
        vstd::set_lib::lemma_subset_equality(
            after.processed_fifo.to_set(),
            noted.processed_fifo.to_set(),
        );
    }
}

/// What is executed reaches the memory in its order: what was there before stays in front of what
/// is new.
pub proof fn lemma_memory_grows_at_the_end(view: ExecutorView, ids: Seq<u64>)
    ensures
        view.remember_each(ids).processed_fifo.len() >= view.processed_fifo.len(),
        view.remember_each(ids).processed_fifo.take(view.processed_fifo.len() as int)
            == view.processed_fifo,
    decreases ids.len(),
{
    if ids.len() > 0 {
        lemma_memory_grows_at_the_end(view, ids.drop_last());
    }
    assert(view.remember_each(ids).processed_fifo.take(view.processed_fifo.len() as int)
        =~= view.processed_fifo);
}

/// The latest round is never behind that of a batch that was handled, and never goes back.
pub proof fn lemma_latest_round_is_the_greatest(view: ExecutorView, digest: Digest, batch: BatchView)
    ensures
        view.handle(digest, batch).0.latest >= batch.sequence,
        view.handle(digest, batch).0.latest >= view.latest,
        view.handle(digest, batch).0.latest == batch.sequence || view.handle(digest, batch).0.latest
            == view.latest,
        view.handle(digest, batch).1.len() == 0 ==> view.handle(
            digest,
            batch,
        ).0.pending.last().first_seen == view.handle(digest, batch).0.latest,
{
    let dependencies = ascending_list(external_dependencies(batch));
    if all_processed(dependencies, view.processed) {
        let current = ExecutorView {
            latest: if view.latest >= batch.sequence {
                view.latest
            } else {
                batch.sequence
            },
            ..view
        };
        let pairs = internal_pairs(batch).len() as usize;
        lemma_execute_keeps(current, digest, batch, pairs);
        lemma_retry_keeps_latest(current.execute(digest, batch, pairs).0);
    }
}

proof fn lemma_retry_keeps_latest(view: ExecutorView)
    ensures
        view.retry().0.latest == view.latest,
    decreases view.pending.len(),
{
    if view.pending.len() > 0 {
        lemma_retry_first_keeps_latest(view, view.pending.len());
        lemma_retry_first_len(view, view.pending.len());
        let (next, done) = view.retry_first(view.pending.len());
        if done.len() > 0 {
            lemma_retry_keeps_latest(next);
        }
    }
}

proof fn lemma_retry_first_keeps_latest(view: ExecutorView, n: nat)
    requires
        n <= view.pending.len(),
    ensures
        view.retry_first(n).0.latest == view.latest,
    decreases n,
{
    if n > 0 {
        lemma_retry_first_keeps_latest(view, (n - 1) as nat);
        lemma_retry_first_len(view, (n - 1) as nat);
        let before = view.retry_first((n - 1) as nat).0;
        let front = before.pending[0];
        let popped = ExecutorView {
            pending: before.pending.drop_first(),
            counts: crate::executor_model::untrack(before.counts, front.dependencies),
            ..before
        };
        lemma_execute_keeps(popped, front.digest, front.batch, front.pair_count);
    }
}

/// A counter grows by the number of events, and stops where it cannot hold more.
pub proof fn lemma_counters_stop_at_the_end(counter: u64, by: nat)
    ensures
        counter + by <= u64::MAX ==> bump(counter, by as int) == counter + by,
        counter + by > u64::MAX ==> bump(counter, by as int) == u64::MAX,
{
}

/// The queue is found unhealthy where it has more than 4096 batches, or one that has waited for more
/// than 256 rounds; each time that counts as one event, and changes nothing else.
pub proof fn lemma_unhealthy_queues_are_counted(view: ExecutorView, i: int)
    requires
        view.health_events < u64::MAX,
    ensures
        view.pending.len() > 4_096 ==> view.check_health().health_events == view.health_events + 1,
        0 <= i < view.pending.len() && view.latest - view.pending[i].first_seen > 256
            ==> view.check_health().health_events == view.health_events + 1,
        view.pending.len() <= 4_096 && (forall|j: int|
            0 <= j < view.pending.len() ==> view.latest - (#[trigger] view.pending[j]).first_seen
                <= 256) ==> view.check_health() == view,
        view.check_health().pending == view.pending,
        view.check_health().processed == view.processed,
{
}

/// More than 4096 batches are queued, or one of them for more than 256 rounds.
pub open spec fn has_piled_up(view: ExecutorView) -> bool {
    ||| view.pending.len() > 4_096
    ||| exists|i: int|
        0 <= i < view.pending.len() && view.latest - (#[trigger] view.pending[i]).first_seen > 256
}

/// `after` counts one event more than `before` exactly if its queue has piled up.
pub open spec fn counts_piling_up(before: ExecutorView, after: ExecutorView) -> bool {
    after.health_events == if has_piled_up(after) && before.health_events < u64::MAX {
        before.health_events + 1
    } else {
        before.health_events as int
    }
}

proof fn lemma_execute_is_healthy(
    view: ExecutorView,
    digest: Digest,
    batch: BatchView,
    pairs: usize,
)
    ensures
        view.execute(digest, batch, pairs).0.health_events == view.health_events,
{
    crate::executor_model::lemma_remember_each_keeps(
        view.count_fallback(pairs),
        ascending_list(standard_ids(executed_transactions(batch))),
    );
}

proof fn lemma_retry_first_is_healthy(view: ExecutorView, n: nat)
    requires
        n <= view.pending.len(),
    ensures
        view.retry_first(n).0.health_events == view.health_events,
    decreases n,
{
    if n > 0 {
        lemma_retry_first_is_healthy(view, (n - 1) as nat);
        lemma_retry_first_len(view, (n - 1) as nat);
        let before = view.retry_first((n - 1) as nat).0;
        let front = before.pending[0];
        let taken = ExecutorView {
            pending: before.pending.drop_first(),
            counts: crate::executor_model::untrack(before.counts, front.dependencies),
            ..before
        };
        lemma_execute_is_healthy(taken, front.digest, front.batch, front.pair_count);
    }
}

/// Once what has become ready was executed, the queue is looked at once: where it has piled up, that
/// counts as an event.
pub proof fn lemma_retried_queue_is_looked_at(view: ExecutorView)
    ensures
        counts_piling_up(view, view.retry().0),
    decreases view.pending.len(),
{
    if view.pending.len() > 0 {
        let (next, done) = view.retry_first(view.pending.len());
        lemma_retry_first_is_healthy(view, view.pending.len());
        lemma_retry_first_len(view, view.pending.len());
        if done.len() == 0 {
            let end = next.check_health();
            assert(end.pending == next.pending && end.latest == next.latest);
            assert(has_piled_up(end) <==> has_piled_up(next));
        } else {
            lemma_retried_queue_is_looked_at(next);
        }
    }
}

/// Whatever becomes of a batch that comes in, the queue is looked at once thereafter.
pub proof fn lemma_queue_is_looked_at(view: ExecutorView, digest: Digest, batch: BatchView)
    ensures
        counts_piling_up(view, view.handle(digest, batch).0),
{
    let current = ExecutorView {
        latest: if view.latest >= batch.sequence {
            view.latest
        } else {
            batch.sequence
        },
        ..view
    };
    let dependencies = ascending_list(external_dependencies(batch));
    let pair_count = internal_pairs(batch).len() as usize;
    let end = view.handle(digest, batch).0;
    if all_processed(dependencies, view.processed) {
        let next = current.execute(digest, batch, pair_count).0;
        lemma_execute_is_healthy(current, digest, batch, pair_count);
        lemma_retried_queue_is_looked_at(next);
    } else {
        let queued = PendingView {
            digest,
            batch,
            dependencies,
            pair_count,
            first_seen: current.latest,
            stalled_rounds: 0,
        };
        let next = ExecutorView {
            pending: view.pending.push(queued),
            counts: crate::executor_model::track(view.counts, dependencies),
            ..current
        };
        assert(end == next.check_health());
        assert(has_piled_up(end) <==> has_piled_up(next));
    }
}

/// Every observation that is handed over, kept back or lost is accounted for: after an attempt to
/// hand over those that are kept back, each of them was sent, is still kept back in its order, or
/// is counted as lost.
pub proof fn lemma_observations_are_accounted_for(
    before: ExecutorView,
    after: ExecutorView,
    budget: int,
    n: int,
)
    requires
        0 <= n <= budget,
        n <= before.observations.len(),
        flushed(before, after, budget, n),
        before.dropped_observations + before.observations.len() <= u64::MAX,
    ensures
        after.sent.len() == before.sent.len() + n,
        (after.sent.len() - before.sent.len()) + after.observations.len() + (
        after.dropped_observations - before.dropped_observations) == before.observations.len(),
        forall|i: int| 0 <= i < before.sent.len() ==> after.sent[i] == before.sent[i],
        forall|i: int|
            0 <= i < n ==> #[trigger] after.sent[before.sent.len() + i]
                == ControlView::ObserveGlobalGraph(before.observations[i]),
        forall|i: int|
            0 <= i < after.observations.len() ==> #[trigger] after.observations[i]
                == before.observations[n + i],
        after.refused.len() == before.refused.len() <==> n == budget || n
            == before.observations.len(),
        after.pending == before.pending,
        after.processed == before.processed,
{
}

/// Whoever is to hear of a batch with missing pairs hears of it, or the observation is kept back
/// because there was no room for it, or it is counted as lost because nobody listens. Of a batch
/// without missing pairs nothing is told.
pub proof fn lemma_observation_is_told_kept_or_counted(
    before: ExecutorView,
    batch: BatchView,
    after: ExecutorView,
)
    requires
        may_observe(before, batch, after),
        before.observations.len() <= 1_024,
        before.dropped_observations < u64::MAX,
    ensures
        batch.missing_edges.len() == 0 ==> after == before,
        batch.missing_edges.len() > 0 ==> exists|info: InfoView| #[trigger]
            describes(info, batch) && {
                let message = ControlView::ObserveGlobalGraph(info);
                ||| after.sent == before.sent.push(message) && after.refused == before.refused
                    && after.observations == before.observations && after.dropped_observations
                    == before.dropped_observations
                ||| after.sent == before.sent && after.refused == before.refused.push(
                    Refusal::Full(message),
                ) && after.observations.last() == info && after.observations.len() > 0
                    && after.observations.len() + (after.dropped_observations
                    - before.dropped_observations) == before.observations.len() + 1
                ||| after.sent == before.sent && after.refused == before.refused.push(
                    Refusal::Closed(message),
                ) && after.observations == before.observations && after.dropped_observations
                    == before.dropped_observations + 1
            },
        after.pending == before.pending,
        after.processed == before.processed,
        after.counts == before.counts,
        after.executed == before.executed,
{
    if batch.missing_edges.len() > 0 {
        let info = choose|info: InfoView| #[trigger]
            describes(info, batch) && {
                ||| after == before.hand_over(info)
                ||| after == before.find_full(info).keep_back(info)
                ||| after == before.find_closed(info).lose_observations(1)
            };
        assert(describes(info, batch));
    }
}

/// A batch with nothing to wait for, handled while nothing is queued, is the one that is executed;
/// its open pairs are counted, and what it executes is remembered.
pub proof fn lemma_lone_batch(view: ExecutorView, digest: Digest, batch: BatchView)
    requires
        view.valid(),
        view.pending.len() == 0,
        nothing_missing(batch, view.processed),
        view.fallback_pairs + internal_pairs(batch).len() <= u64::MAX,
        internal_pairs(batch).len() <= usize::MAX,
        view.processed_fifo.len() + standard_ids(executed_transactions(batch)).len() <= 65_536,
    ensures
        ({
            let (next, executed) = view.handle(digest, batch);
            &&& executed.len() == 1
            &&& is_execution_of(executed[0], digest, batch)
            &&& next.pending.len() == 0
            &&& next.fallback_pairs == view.fallback_pairs + internal_pairs(batch).len()
            &&& next.processed == view.processed.union(
                standard_ids(executed_transactions(batch)),
            )
        }),
{
    let pairs = internal_pairs(batch).len() as usize;
    let list = ascending_list(standard_ids(executed_transactions(batch)));
    let current = ExecutorView {
        latest: if view.latest >= batch.sequence {
            view.latest
        } else {
            batch.sequence
        },
        ..view
    };
    lemma_batch_is_executed_when_ready(view, digest, batch);
    lemma_execution(current, digest, batch, pairs);
    lemma_execute_keeps(current, digest, batch, pairs);
    lemma_ascending_list_of(standard_ids(executed_transactions(batch)));
    list.unique_seq_to_set();
    let counted = current.count_fallback(pairs);
    lemma_nothing_is_forgotten_while_there_is_room(counted, list);
    crate::executor_model::lemma_remember_each_keeps(counted, list);
}

/// A batch is queued with the number of its own open pairs.
pub proof fn lemma_queued_with_own_pairs(view: ExecutorView, digest: Digest, batch: BatchView)
    requires
        notes_dependencies(view.pending),
        !nothing_missing(batch, view.processed),
        internal_pairs(batch).len() <= usize::MAX,
    ensures
        view.handle(digest, batch).0.pending.last().pair_count == internal_pairs(batch).len(),
        view.handle(digest, batch).0.pending.last().stalled_rounds == 0,
        view.handle(digest, batch).0.pending.drop_last() == view.pending,
{
    lemma_batch_is_executed_when_ready(view, digest, batch);
    assert(view.handle(digest, batch).0.pending.drop_last() =~= view.pending);
}

/// An observation that is kept back is the newest of them. No more than 1024 are kept back; where
/// there would be more, the oldest one is lost and counted.
pub proof fn lemma_newest_observations_are_kept(view: ExecutorView, info: InfoView)
    requires
        view.observations.len() <= 1_024,
        view.dropped_observations < u64::MAX,
    ensures
        view.keep_back(info).observations.len() <= 1_024,
        view.keep_back(info).observations.last() == info,
        view.keep_back(info).observations.len() + (view.keep_back(info).dropped_observations
            - view.dropped_observations) == view.observations.len() + 1,
        view.observations.len() < 1_024 ==> view.keep_back(info).dropped_observations
            == view.dropped_observations,
        forall|i: int|
            0 <= i < view.keep_back(info).observations.len() - 1 ==> #[trigger] view.keep_back(
                info,
            ).observations[i] == view.observations[view.observations.len() + 1 - view.keep_back(
                info,
            ).observations.len() + i],
{
}

} // verus!
