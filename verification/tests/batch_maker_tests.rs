use dod_worker::batch::{Batch, PublicKey};
use dod_worker::batch_maker::BatchMaker;
use dod_worker::control::{canonical_missing_edge, BatchMakerControl, GlobalGraphInfo};
use dod_worker::maker_model::{TxState, MAX_MISSING_PAIR_AGE};
use dod_worker::transaction::{parse_transaction_id_and_state_key, Transaction};
use tokio::sync::mpsc::{channel, Sender};

fn standard_transaction(id: u64, state_key: u8) -> Transaction {
    let mut tx = Vec::with_capacity(100);
    tx.push(1u8);
    tx.extend_from_slice(&id.to_be_bytes());
    tx.push(state_key);
    tx.resize(100, 0u8);
    tx
}

fn legacy_sample_transaction(id: u64) -> Transaction {
    let mut tx = Vec::with_capacity(9);
    tx.push(0u8);
    tx.extend_from_slice(&id.to_be_bytes());
    tx
}

fn transaction() -> Transaction {
    vec![0u8; 100]
}

fn batch_tx_ids(batch: &Batch) -> Vec<u64> {
    batch
        .transactions
        .iter()
        .filter_map(|tx| parse_transaction_id_and_state_key(tx).map(|(tx_id, _)| tx_id))
        .collect()
}

fn queued_unprocessed_ids(batch_maker: &BatchMaker, state_key: u8) -> Option<Vec<u64>> {
    batch_maker
        .unprocessed_by_key
        .get(&state_key)
        .map(|tx_ids| tx_ids.iter().copied().collect())
}

/// A batch maker, and the channels over which it is told of ordered batches and of executed
/// transactions.
fn maker(batch_size: usize) -> (BatchMaker, Sender<BatchMakerControl>, Sender<BatchMakerControl>) {
    let (tx_observation_control, rx_observation_control) = channel(5);
    let (tx_processed_control, rx_processed_control) = channel(5);
    let batch_maker = BatchMaker::new(
        PublicKey::default(),
        batch_size,
        rx_observation_control,
        rx_processed_control,
    );
    (batch_maker, tx_observation_control, tx_processed_control)
}

fn observed(sequence: u64, ids: [u64; 2], state_key: u8) -> BatchMakerControl {
    BatchMakerControl::observe_global_batch(&Batch {
        author: PublicKey::default(),
        sequence,
        transactions: vec![
            standard_transaction(ids[0], state_key),
            standard_transaction(ids[1], state_key),
        ],
        edges: Vec::new(),
        missing_edges: vec![(ids[0], ids[1])],
    })
}

#[test]
fn make_batch() {
    let (mut batch_maker, _observe, _process) = maker(200);

    assert_eq!(batch_maker.ingest(transaction()), None);
    let batch = batch_maker.ingest(transaction());

    let expected_batch = Batch {
        author: PublicKey::default(),
        sequence: 0,
        transactions: vec![transaction(), transaction()],
        edges: Vec::new(),
        missing_edges: Vec::new(),
    };
    assert_eq!(batch, Some(expected_batch));
}

#[test]
fn batch_timeout() {
    let (mut batch_maker, _observe, _process) = maker(200);

    assert_eq!(batch_maker.ingest(transaction()), None);
    let batch = batch_maker.on_timer();

    let expected_batch = Batch {
        author: PublicKey::default(),
        sequence: 0,
        transactions: vec![transaction()],
        edges: Vec::new(),
        missing_edges: Vec::new(),
    };
    assert_eq!(batch, Some(expected_batch));
}

#[test]
fn timer_without_transactions_seals_nothing() {
    let (mut batch_maker, _observe, process) = maker(200);
    batch_maker.record_unprocessed(41, 9);
    process.try_send(BatchMakerControl::mark_processed(vec![41])).unwrap();

    assert_eq!(batch_maker.on_timer(), None);

    // The time is used to work off control messages.
    assert_eq!(batch_maker.tx_state(41), TxState::Processed);
    assert_eq!(batch_maker.next_sequence, 0);
}

#[test]
fn local_order_adds_edge_for_conflicting_txs_in_same_batch() {
    let (mut batch_maker, _observe, _process) = maker(200);

    assert_eq!(batch_maker.ingest(standard_transaction(10, 7)), None);
    let batch = batch_maker.ingest(standard_transaction(11, 7)).unwrap();

    assert_eq!(batch.sequence, 0);
    assert_eq!(batch.edges, vec![(10, 11)]);
}

#[test]
fn local_order_links_to_all_prior_conflicting_txs() {
    let (mut batch_maker, _observe, _process) = maker(300);

    assert_eq!(batch_maker.ingest(standard_transaction(10, 7)), None);
    assert_eq!(batch_maker.ingest(standard_transaction(11, 7)), None);
    let batch = batch_maker.ingest(standard_transaction(12, 7)).unwrap();

    assert_eq!(batch.sequence, 0);
    assert_eq!(batch.edges, vec![(10, 11), (10, 12), (11, 12)]);
}

#[test]
fn local_order_ignores_transactions_on_other_states() {
    let (mut batch_maker, _observe, _process) = maker(300);

    assert_eq!(batch_maker.ingest(standard_transaction(10, 7)), None);
    assert_eq!(batch_maker.ingest(legacy_sample_transaction(11)), None);
    assert_eq!(batch_maker.ingest(standard_transaction(12, 8)), None);
    let batch = batch_maker.ingest(standard_transaction(13, 7)).unwrap();

    assert_eq!(batch_tx_ids(&batch), vec![10, 11, 12, 13]);
    assert_eq!(batch.edges, vec![(10, 13)]);
    assert!(batch.missing_edges.is_empty());
}

#[test]
fn local_order_keeps_cross_batch_last_writer_without_rebroadcasting_unresolved_txs() {
    let (mut batch_maker, _observe, _process) = maker(100);

    let batch = batch_maker.ingest(standard_transaction(42, 9)).unwrap();
    assert_eq!(batch.sequence, 0);
    assert_eq!(batch_tx_ids(&batch), vec![42]);
    assert!(batch.edges.is_empty());

    let batch = batch_maker.ingest(standard_transaction(43, 9)).unwrap();
    assert_eq!(batch.sequence, 1);
    assert_eq!(batch_tx_ids(&batch), vec![43]);
    assert_eq!(batch.edges, vec![(42, 43)]);

    let batch = batch_maker.ingest(standard_transaction(44, 9)).unwrap();
    assert_eq!(batch.sequence, 2);
    assert_eq!(batch_tx_ids(&batch), vec![44]);
    assert_eq!(batch.edges, vec![(43, 44)]);
}

#[test]
fn observe_global_graph_turns_ambiguous_unprocessed_txs_into_local_missing_edges() {
    let (mut batch_maker, observe, _process) = maker(100);

    assert!(batch_maker.ingest(standard_transaction(41, 9)).is_some());
    assert!(batch_maker.ingest(standard_transaction(42, 9)).is_some());
    observe.try_send(observed(0, [41, 500], 9)).unwrap();

    let batch = batch_maker.ingest(standard_transaction(43, 9)).unwrap();
    assert_eq!(batch.sequence, 2);
    assert_eq!(batch_tx_ids(&batch), vec![43]);
    assert_eq!(batch.edges, vec![(42, 43)]);
    assert_eq!(batch.missing_edges, vec![(41, 43)]);
}

#[test]
fn processed_feedback_clears_local_missing_edge_carry_over() {
    let (mut batch_maker, observe, process) = maker(100);

    assert!(batch_maker.ingest(standard_transaction(41, 9)).is_some());
    assert!(batch_maker.ingest(standard_transaction(42, 9)).is_some());
    observe.try_send(observed(0, [41, 500], 9)).unwrap();
    process.try_send(BatchMakerControl::mark_processed(vec![41])).unwrap();

    let batch = batch_maker.ingest(standard_transaction(43, 9)).unwrap();
    assert_eq!(batch.sequence, 2);
    assert_eq!(batch.edges, vec![(42, 43)]);
    assert!(batch.missing_edges.is_empty());
}

#[test]
fn local_order_prefers_an_unresolved_last_writer_as_missing_predecessor() {
    let (mut batch_maker, observe, _process) = maker(100);

    assert!(batch_maker.ingest(standard_transaction(41, 9)).is_some());
    assert!(batch_maker.ingest(standard_transaction(42, 9)).is_some());
    observe.try_send(observed(0, [41, 500], 9)).unwrap();
    observe.try_send(observed(1, [42, 600], 9)).unwrap();

    let batch = batch_maker.ingest(standard_transaction(43, 9)).unwrap();
    assert_eq!(batch.sequence, 2);
    assert!(batch.edges.is_empty());
    assert_eq!(batch.missing_edges, vec![(42, 43)]);
}

#[test]
fn observe_global_batch_canonicalizes_missing_edges() {
    let batch = Batch {
        author: PublicKey::default(),
        sequence: 7,
        transactions: vec![
            standard_transaction(43, 4),
            legacy_sample_transaction(99),
            standard_transaction(42, 4),
        ],
        edges: Vec::new(),
        missing_edges: vec![(43, 42), (42, 43), (100, 101)],
    };

    match BatchMakerControl::observe_global_batch(&batch) {
        BatchMakerControl::ObserveGlobalGraph(info) => {
            assert_eq!(info.sequence, 7);
            assert_eq!(info.tx_ids, vec![42, 43]);
            assert_eq!(info.missing_edges, vec![(42, 43), (100, 101)]);
        }
        BatchMakerControl::MarkProcessed(_) => panic!("unexpected processed feedback control"),
    }
}

#[test]
fn mark_processed_sorts_and_drops_repetitions() {
    match BatchMakerControl::mark_processed(vec![9, 3, 9, 1]) {
        BatchMakerControl::MarkProcessed(tx_ids) => assert_eq!(tx_ids, vec![1, 3, 9]),
        BatchMakerControl::ObserveGlobalGraph(_) => panic!("unexpected observation control"),
    }
}

#[test]
fn pairs_are_put_in_ascending_order() {
    assert_eq!(canonical_missing_edge(5, 3), (3, 5));
    assert_eq!(canonical_missing_edge(3, 5), (3, 5));
    assert_eq!(canonical_missing_edge(4, 4), (4, 4));
}

#[test]
fn drops_duplicate_unprocessed_standard_transactions() {
    let (mut batch_maker, _observe, _process) = maker(1);

    assert!(batch_maker.accept_transaction(standard_transaction(41, 9)));
    assert!(!batch_maker.accept_transaction(standard_transaction(41, 9)));
    assert!(batch_maker.accept_transaction(standard_transaction(42, 9)));

    let batch = Batch {
        author: PublicKey::default(),
        sequence: 0,
        transactions: batch_maker.current_batch.clone(),
        edges: Vec::new(),
        missing_edges: Vec::new(),
    };
    assert_eq!(batch_tx_ids(&batch), vec![41, 42]);
}

#[test]
fn drops_reappearing_transactions_while_they_are_still_unprocessed() {
    let (mut batch_maker, _observe, _process) = maker(1);

    batch_maker.record_unprocessed(41, 9);

    assert_eq!(batch_maker.tx_state(41), TxState::Unprocessed);
    assert!(!batch_maker.accept_transaction(standard_transaction(41, 9)));
    assert!(batch_maker.current_batch.is_empty());
}

#[test]
fn states_follow_a_transaction() {
    let (mut batch_maker, _observe, _process) = maker(200);

    assert_eq!(batch_maker.tx_state(41), TxState::Unseen);
    assert_eq!(batch_maker.ingest(standard_transaction(41, 9)), None);
    assert_eq!(batch_maker.tx_state(41), TxState::InBatch);
    assert!(batch_maker.on_timer().is_some());
    assert_eq!(batch_maker.tx_state(41), TxState::Unprocessed);
    batch_maker.mark_processed(vec![41]);
    assert_eq!(batch_maker.tx_state(41), TxState::Processed);
}

#[test]
fn processed_feedback_marks_processed_state_for_control_path() {
    let (mut batch_maker, _observe, _process) = maker(1);

    batch_maker.record_unprocessed(41, 9);
    batch_maker.handle_control(BatchMakerControl::mark_processed(vec![41]));

    assert!(batch_maker.processed_tx_ids.contains(&41));
    assert_eq!(batch_maker.tx_state(41), TxState::Processed);

    batch_maker.observe_global_graph(GlobalGraphInfo {
        sequence: 0,
        tx_ids: vec![41, 500],
        missing_edges: vec![(41, 500)],
    });
    assert!(batch_maker.missing_pairs.is_empty());
}

#[test]
fn processed_feedback_prunes_unprocessed_state_without_retaining_payloads() {
    let (mut batch_maker, _observe, _process) = maker(1);

    batch_maker.record_unprocessed(41, 9);
    batch_maker.record_unprocessed(42, 9);
    batch_maker.record_unprocessed(100, 7);
    batch_maker.handle_control(BatchMakerControl::mark_processed(vec![42, 999]));

    assert_eq!(batch_maker.known_transactions.get(&41), Some(&9));
    assert_eq!(batch_maker.known_transactions.get(&42), None);
    assert_eq!(batch_maker.known_transactions.get(&100), Some(&7));
    assert_eq!(queued_unprocessed_ids(&batch_maker, 9), Some(vec![41, 42]));
    assert_eq!(queued_unprocessed_ids(&batch_maker, 7), Some(vec![100]));
}

#[test]
fn drain_control_backlog_limits_work_not_whole_messages() {
    let (mut batch_maker, _observe, _process) = maker(1);

    batch_maker.record_unprocessed(41, 9);
    batch_maker.record_unprocessed(42, 9);
    batch_maker.enqueue_control(BatchMakerControl::mark_processed(vec![41, 42]));

    batch_maker.drain_control_backlog(1);

    assert!(batch_maker.processed_tx_ids.contains(&41));
    assert!(!batch_maker.processed_tx_ids.contains(&42));
    assert_eq!(batch_maker.known_transactions.get(&41), None);
    assert_eq!(batch_maker.known_transactions.get(&42), Some(&9));
    assert_eq!(batch_maker.pending_processed_controls.len(), 1);

    batch_maker.drain_control_backlog(1);
    assert!(batch_maker.processed_tx_ids.contains(&42));
    assert!(batch_maker.pending_processed_controls.is_empty());
}

#[test]
fn unresolved_frontier_prunes_stale_frontier_candidates() {
    let (mut batch_maker, _observe, _process) = maker(1);

    for tx_id in 1..=64 {
        batch_maker.record_unprocessed(tx_id, 9);
    }
    batch_maker.observe_global_graph(GlobalGraphInfo {
        sequence: 0,
        tx_ids: vec![1, 33, 500, 600],
        missing_edges: vec![(1, 500), (33, 600)],
    });
    batch_maker.handle_control(BatchMakerControl::mark_processed(vec![1]));

    assert_eq!(batch_maker.unresolved_frontier_for_key(9), Some(33));
    assert_eq!(
        batch_maker
            .frontier_by_key
            .get(&9)
            .map(|queue| queue.iter().copied().collect::<Vec<_>>()),
        Some(vec![33])
    );
}

#[test]
fn missing_pairs_are_forgotten_with_age() {
    let (mut batch_maker, _observe, _process) = maker(1);

    batch_maker.record_unprocessed(1, 9);
    batch_maker.record_unprocessed(2, 9);
    batch_maker.observe_global_graph(GlobalGraphInfo {
        sequence: 0,
        tx_ids: vec![1],
        missing_edges: vec![(1, 500)],
    });
    assert!(batch_maker.missing_pairs.contains(&(1, 500)));

    batch_maker.observe_global_graph(GlobalGraphInfo {
        sequence: MAX_MISSING_PAIR_AGE + 1,
        tx_ids: vec![2],
        missing_edges: vec![(2, 600)],
    });
    assert!(!batch_maker.missing_pairs.contains(&(1, 500)));
    assert!(batch_maker.missing_pairs.contains(&(2, 600)));
    assert_eq!(batch_maker.missing_partners_by_tx.get(&1), None);
}

#[test]
fn sealed_transactions_are_duplicates_until_they_are_executed() {
    let (mut batch_maker, _observe, _process) = maker(100);

    assert!(batch_maker.ingest(standard_transaction(41, 9)).is_some());
    assert_eq!(batch_maker.ingest(standard_transaction(41, 9)), None);
    assert!(batch_maker.current_batch.is_empty());

    // Once it was executed, it counts as a new one.
    batch_maker.mark_processed(vec![41]);
    assert!(batch_maker.ingest(standard_transaction(41, 9)).is_some());
}

#[test]
fn control_work_leaves_the_open_batch_alone() {
    let (mut batch_maker, observe, process) = maker(1_000);
    assert_eq!(batch_maker.ingest(standard_transaction(7, 9)), None);
    batch_maker.record_unprocessed(41, 9);
    observe.try_send(observed(0, [41, 500], 9)).unwrap();
    process.try_send(BatchMakerControl::mark_processed(vec![41, 7])).unwrap();

    batch_maker.drain_control_backlog(100);
    assert_eq!(batch_maker.current_batch, vec![standard_transaction(7, 9)]);
    assert_eq!(batch_maker.current_batch_size, 100);
    assert_eq!(batch_maker.next_sequence, 0);
}

#[test]
fn what_is_taken_out_of_the_channels_is_handled() {
    let (mut batch_maker, observe, process) = maker(1_000);
    for tx_id in 41..=44 {
        batch_maker.record_unprocessed(tx_id, 9);
    }
    observe.try_send(observed(0, [41, 42], 9)).unwrap();
    observe.try_send(observed(1, [43, 44], 9)).unwrap();
    process.try_send(BatchMakerControl::mark_processed(vec![500])).unwrap();
    process.try_send(BatchMakerControl::mark_processed(vec![501])).unwrap();

    // Nothing is taken out without work to spend on it.
    batch_maker.drain_control_backlog(0);
    assert_eq!(observe.capacity(), 3);
    assert_eq!(process.capacity(), 3);

    // Executed transactions go first, in the order in which they were sent.
    batch_maker.drain_control_backlog(1);
    assert!(batch_maker.processed_tx_ids.contains(&500));
    assert!(!batch_maker.processed_tx_ids.contains(&501));

    batch_maker.drain_control_backlog(100);
    assert!(batch_maker.processed_tx_ids.contains(&501));
    assert_eq!(batch_maker.missing_pairs.len(), 2);
    assert_eq!(observe.capacity(), 5);
    assert_eq!(process.capacity(), 5);
}
