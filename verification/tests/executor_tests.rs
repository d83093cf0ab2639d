use dod_worker::batch::{Batch, Digest, PublicKey};
use dod_worker::batch_maker::BatchMaker;
use dod_worker::channels::Delivery;
use dod_worker::control::{BatchMakerControl, GlobalGraphInfo};
use dod_worker::digests::DigestSet;
use dod_worker::executor::{should_log_event, ExecutedBatch, Executor};
use dod_worker::executor_model::{
    MAX_PENDING_BATCHES_SOFT, MAX_PENDING_OBSERVATIONS, MAX_PENDING_SEQUENCE_LAG_SOFT,
};
use dod_worker::transaction::{parse_transaction_id_and_state_key, Transaction};
use std::collections::{HashMap, HashSet, VecDeque};
use tokio::sync::mpsc::{channel, Receiver};

fn standard_transaction(id: u64, state_key: u8) -> Transaction {
    let mut tx = Vec::with_capacity(100);
    tx.push(1u8);
    tx.extend_from_slice(&id.to_be_bytes());
    tx.push(state_key);
    tx.resize(100, 0u8);
    tx
}

fn legacy_sample_transaction(id: u64) -> Transaction {
    let mut tx = Vec::with_capacity(9);
    tx.push(0u8);
    tx.extend_from_slice(&id.to_be_bytes());
    tx
}

fn ids_of(transactions: &[Transaction]) -> Vec<u64> {
    transactions
        .iter()
        .filter_map(|tx| parse_transaction_id_and_state_key(tx).map(|(tx_id, _)| tx_id))
        .collect()
}

fn digest(n: u8) -> Digest {
    Digest([n; 32])
}

/// A batch of writes to one state.
fn batch(sequence: u64, ids: &[u64], missing_edges: Vec<(u64, u64)>) -> Batch {
    Batch {
        author: PublicKey::default(),
        sequence,
        transactions: ids.iter().map(|id| standard_transaction(*id, 9)).collect(),
        edges: Vec::new(),
        missing_edges,
    }
}

fn executor(capacity: usize) -> (Executor, Receiver<BatchMakerControl>) {
    let (tx_observation, rx_observation) = channel(capacity);
    (Executor::new(0, tx_observation), rx_observation)
}

fn digests_of(executed: &[ExecutedBatch]) -> Vec<Digest> {
    executed.iter().map(|batch| batch.digest).collect()
}

#[test]
fn executes_batches_with_kahn_order() {
    let batch = Batch {
        author: PublicKey::default(),
        sequence: 0,
        transactions: vec![
            standard_transaction(3, 1),
            standard_transaction(1, 1),
            standard_transaction(2, 1),
        ],
        edges: vec![(1, 2)],
        missing_edges: vec![(1, 3), (2, 3)],
    };

    let ordered = Executor::execute_batch(&batch);
    let tx_ids: Vec<_> = ordered
        .iter()
        .filter_map(|tx| parse_transaction_id_and_state_key(tx).map(|(tx_id, _)| tx_id))
        .collect();

    assert_eq!(tx_ids, vec![3, 1, 2]);
}

#[test]
fn preserves_singleton_batches() {
    let batch = Batch {
        author: PublicKey::default(),
        sequence: 7,
        transactions: vec![standard_transaction(11, 9)],
        edges: Vec::new(),
        missing_edges: vec![(11, 11)],
    };

    let ordered = Executor::execute_batch(&batch);
    let tx_ids: Vec<_> = ordered
        .iter()
        .filter_map(|tx| parse_transaction_id_and_state_key(tx).map(|(tx_id, _)| tx_id))
        .collect();

    assert_eq!(tx_ids, vec![11]);
}

#[test]
fn processed_feedback_only_tracks_standard_transactions() {
    let tx_ids = Executor::collect_processed_tx_ids(&[
        legacy_sample_transaction(1),
        standard_transaction(3, 9),
        standard_transaction(2, 9),
        standard_transaction(3, 9),
    ]);

    assert_eq!(tx_ids, vec![2, 3]);
}

#[test]
fn queues_batches_with_unprocessed_external_missing_predecessors() {
    let batch = Batch {
        author: PublicKey::default(),
        sequence: 3,
        transactions: vec![standard_transaction(43, 9)],
        edges: Vec::new(),
        missing_edges: vec![(41, 43)],
    };
    let summary = Executor::summarize_missing_edges(&batch);

    assert_eq!(summary.external_dependencies, vec![41]);
    assert_eq!(summary.same_batch_pair_count, 0);
    assert!(!Executor::batch_ready(
        &summary.external_dependencies,
        &HashSet::new()
    ));

    let mut processed = HashSet::new();
    processed.insert(41);
    assert!(Executor::batch_ready(
        &summary.external_dependencies,
        &processed
    ));
}

#[test]
fn external_missing_predecessors_ignore_same_batch_pairs() {
    let batch = Batch {
        author: PublicKey::default(),
        sequence: 4,
        transactions: vec![standard_transaction(43, 9), standard_transaction(44, 9)],
        edges: Vec::new(),
        missing_edges: vec![(41, 43), (43, 44), (44, 88)],
    };
    let summary = Executor::summarize_missing_edges(&batch);

    assert_eq!(summary.external_dependencies, vec![41, 88]);
    assert_eq!(summary.same_batch_pair_count, 1);
}

#[test]
fn same_batch_missing_pairs_do_not_block_batch_readiness() {
    let batch = Batch {
        author: PublicKey::default(),
        sequence: 5,
        transactions: vec![standard_transaction(43, 9), standard_transaction(44, 9)],
        edges: Vec::new(),
        missing_edges: vec![(43, 44)],
    };
    let summary = Executor::summarize_missing_edges(&batch);

    assert!(summary.external_dependencies.is_empty());
    assert_eq!(summary.same_batch_pair_count, 1);
    assert!(Executor::batch_ready(
        &summary.external_dependencies,
        &HashSet::new()
    ));
}

#[test]
fn trim_processed_to_cap_keeps_pending_dependencies_pinned() {
    let (tx_observation, _rx_observation) = channel(1);

    let mut executor = Executor {
        id: 0,
        tx_batch_observation: tx_observation,
        executed: DigestSet::new(),
        processed_tx_ids: HashSet::from([41, 42]),
        processed_fifo: VecDeque::from([41, 42]),
        pending_batches: VecDeque::new(),
        pending_dependency_counts: HashMap::from([(41, 1usize)]),
        latest_sequence: 0,
        pending_observations: VecDeque::new(),
        dropped_observations: 0,
        pending_health_events: 0,
        processed_trim_blocked_events: 0,
        same_batch_fallback_batches: 0,
        same_batch_fallback_pairs: 0,
    };

    executor.trim_processed_to_cap(1);

    assert!(executor.processed_tx_ids.contains(&41));
    assert!(!executor.processed_tx_ids.contains(&42));
    assert_eq!(
        executor.processed_fifo.iter().copied().collect::<Vec<_>>(),
        vec![41]
    );
    assert_eq!(executor.processed_trim_blocked_events, 0);

    executor.trim_processed_to_cap(0);
    assert!(executor.processed_tx_ids.contains(&41));
    assert_eq!(executor.processed_trim_blocked_events, 1);
}

#[test]
fn transactions_on_a_cycle_follow_in_the_order_of_the_batch() {
    let mut cyclic = batch(0, &[1, 2, 3], vec![]);
    cyclic.edges = vec![(1, 2), (2, 1)];
    assert_eq!(ids_of(&Executor::execute_batch(&cyclic)), vec![3, 1, 2]);
}

#[test]
fn batches_are_taken_on_once() {
    let (mut executor, _observations) = executor(1);
    assert!(!executor.take_on(digest(1), 7));
    assert!(executor.take_on(digest(1), 0));
    assert!(!executor.take_on(digest(1), 0));
    // The same bucket, another digest.
    let mut other = digest(1);
    other.0[31] = 0;
    assert!(executor.take_on(other, 0));
    assert!(executor.take_on(digest(2), 0));
}

#[test]
fn executed_batches_release_those_that_wait_for_them() {
    let (mut executor, _observations) = executor(8);

    assert!(executor.handle_batch(digest(3), batch(1, &[43], vec![(42, 43)])).is_empty());
    assert!(executor.handle_batch(digest(2), batch(2, &[42], vec![(41, 42)])).is_empty());
    assert_eq!(executor.pending_batches.len(), 2);
    assert_eq!(executor.pending_dependency_counts.get(&41), Some(&1));
    assert!(executor.has_metrics());

    let executed = executor.handle_batch(digest(1), batch(3, &[41], vec![]));
    assert_eq!(digests_of(&executed), vec![digest(1), digest(2), digest(3)]);
    assert_eq!(executed[2].processed_tx_ids, vec![43]);
    assert_eq!(ids_of(&executed[2].transactions), vec![43]);
    assert!(executor.pending_batches.is_empty());
    assert!(executor.pending_dependency_counts.is_empty());
    assert_eq!(executor.latest_sequence, 3);
    assert!(!executor.has_metrics());
}

#[test]
fn open_pairs_within_a_batch_are_counted() {
    let (mut executor, _observations) = executor(8);
    let executed = executor.handle_batch(digest(1), batch(1, &[1, 2, 3], vec![(2, 1), (1, 3)]));
    assert_eq!(ids_of(&executed[0].transactions), vec![1, 2, 3]);
    assert_eq!(executor.same_batch_fallback_batches, 1);
    assert_eq!(executor.same_batch_fallback_pairs, 2);
}

#[test]
fn late_batches_make_the_queue_unhealthy() {
    let (mut executor, _observations) = executor(8);
    executor.handle_batch(digest(1), batch(1, &[43], vec![(41, 43)]));
    assert_eq!(executor.pending_health_events, 0);
    let late = 1 + MAX_PENDING_SEQUENCE_LAG_SOFT;
    executor.handle_batch(digest(2), batch(late, &[44], vec![(41, 44)]));
    assert_eq!(executor.pending_health_events, 0);
    executor.handle_batch(digest(3), batch(late + 1, &[45], vec![(41, 45)]));
    assert_eq!(executor.pending_health_events, 1);
    assert_eq!(executor.pending_batches.len(), 3);
    assert!(executor.pending_batches.len() <= MAX_PENDING_BATCHES_SOFT);
    assert_eq!(executor.pending_dependency_counts.get(&41), Some(&3));
}

#[test]
fn observations_reach_the_batch_maker() {
    let (tx_observation, rx_observation) = channel(4);
    let (_tx_processed, rx_processed) = channel(4);
    let mut executor = Executor::new(0, tx_observation);
    let mut batch_maker = BatchMaker::new(PublicKey::default(), 100, rx_observation, rx_processed);
    batch_maker.record_unprocessed(41, 9);

    executor.process_batch(digest(1), batch(0, &[41, 500], vec![(41, 500)]));
    batch_maker.drain_control_backlog(10);
    assert!(batch_maker.missing_pairs.contains(&(41, 500)));
}

#[test]
fn observations_are_kept_back_while_the_channel_is_full() {
    let (mut executor, mut observations) = executor(1);
    for n in 0..3u64 {
        executor.observe_global_batch_best_effort(&batch(n, &[1, 2], vec![(1, 2)]));
    }
    // Nothing is told of a batch without missing pairs.
    executor.observe_global_batch_best_effort(&batch(9, &[1, 2], vec![]));
    assert_eq!(executor.pending_observations.len(), 2);

    executor.flush_observation_backlog(5);
    assert_eq!(executor.pending_observations.len(), 2);

    let mut sequences = Vec::new();
    while let Ok(BatchMakerControl::ObserveGlobalGraph(info)) = observations.try_recv() {
        sequences.push(info.sequence);
        executor.flush_observation_backlog(5);
    }
    assert_eq!(sequences, vec![0, 1, 2]);
    assert!(executor.pending_observations.is_empty());
    assert_eq!(executor.dropped_observations, 0);
}

#[test]
fn flushing_stops_at_its_budget() {
    let (mut executor, mut observations) = executor(8);
    for n in 0..4u64 {
        executor.pending_observations.push_back(GlobalGraphInfo {
            sequence: n,
            tx_ids: vec![],
            missing_edges: vec![],
        });
    }
    executor.flush_observation_backlog(3);
    assert_eq!(executor.pending_observations.len(), 1);
    assert!(observations.try_recv().is_ok());
}

#[test]
fn observations_are_lost_when_nobody_listens() {
    let (mut executor, observations) = executor(1);
    executor.observe_global_batch_best_effort(&batch(0, &[1, 2], vec![(1, 2)]));
    executor.observe_global_batch_best_effort(&batch(1, &[1, 2], vec![(1, 2)]));
    executor.observe_global_batch_best_effort(&batch(2, &[1, 2], vec![(1, 2)]));
    assert_eq!(executor.pending_observations.len(), 2);
    drop(observations);

    executor.flush_observation_backlog(5);
    assert!(executor.pending_observations.is_empty());
    assert_eq!(executor.dropped_observations, 2);
    executor.observe_global_batch_best_effort(&batch(3, &[1, 2], vec![(1, 2)]));
    assert_eq!(executor.dropped_observations, 3);
}

#[test]
fn observations_beyond_the_budget_are_lost_with_the_others() {
    let (mut executor, observations) = executor(1);
    for n in 0..5 {
        executor.observe_global_batch_best_effort(&batch(n, &[1, 2], vec![(1, 2)]));
    }
    assert_eq!(executor.pending_observations.len(), 4);
    drop(observations);

    executor.flush_observation_backlog(0);
    assert_eq!(executor.pending_observations.len(), 4);
    assert_eq!(executor.dropped_observations, 0);
    executor.flush_observation_backlog(1);
    assert!(executor.pending_observations.is_empty());
    assert_eq!(executor.dropped_observations, 4);
}

#[test]
fn the_counter_of_lost_observations_stops_at_its_greatest_value() {
    let (mut executor, _observations) = executor(1);
    executor.dropped_observations = u64::MAX - 1;
    for n in 0..3 {
        executor.observe_global_batch_best_effort(&batch(n, &[1, 2], vec![(1, 2)]));
    }
    let lost = BatchMakerControl::observe_global_batch(&batch(3, &[1, 2], vec![(1, 2)]));
    assert!(!executor.note_flush(Delivery::Closed(lost)));
    assert!(executor.pending_observations.is_empty());
    assert_eq!(executor.dropped_observations, u64::MAX);
}

#[test]
fn feedback_names_the_standard_transactions() {
    let (mut executor, _observations) = executor(1);
    let executed = executor.process_batch(digest(1), batch(0, &[3, 1, 2], vec![]));
    assert_eq!(
        executed[0].feedback(),
        Some(BatchMakerControl::MarkProcessed(vec![1, 2, 3]))
    );

    let mut samples = batch(1, &[], vec![]);
    samples.transactions = vec![legacy_sample_transaction(4)];
    let executed = executor.process_batch(digest(2), samples);
    assert_eq!(executed.len(), 1);
    assert_eq!(executed[0].feedback(), None);
}

#[test]
fn the_oldest_unneeded_transactions_are_forgotten() {
    let (mut executor, _observations) = executor(1);
    executor.process_batch(digest(1), batch(0, &[1, 2, 3, 4], vec![]));
    let waiting = executor.process_batch(digest(2), batch(1, &[5], vec![(1, 5), (9, 5)]));
    assert!(waiting.is_empty());

    executor.trim_processed_to_cap(2);
    let mut left: Vec<u64> = executor.processed_tx_ids.iter().copied().collect();
    left.sort();
    assert_eq!(left, vec![1, 4]);
    assert_eq!(executor.processed_trim_blocked_events, 0);
}

#[test]
fn the_oldest_observation_is_lost_when_too_many_are_kept_back() {
    let (mut executor, _observations) = executor(1);
    for n in 0..(MAX_PENDING_OBSERVATIONS as u64 + 2) {
        executor.observe_global_batch_best_effort(&batch(n, &[1, 2], vec![(1, 2)]));
    }
    assert_eq!(executor.pending_observations.len(), MAX_PENDING_OBSERVATIONS);
    assert_eq!(executor.dropped_observations, 1);
    assert_eq!(executor.pending_observations[0].sequence, 2);
}

#[test]
fn events_are_logged_now_and_then() {
    assert!(should_log_event(1, false));
    assert!(!should_log_event(2, false));
    assert!(should_log_event(64, false));
    assert!(!should_log_event(64, true));
    assert!(should_log_event(1_024, true));
}

#[test]
fn batches_in_the_order_of_their_edges_are_executed_as_listed() {
    let mut listed = batch(0, &[5, 2, 9], vec![(9, 5)]);
    listed.edges = vec![(5, 2), (2, 9)];
    assert_eq!(Executor::execute_batch(&listed), listed.transactions);
}
