use dod_worker::batch::{Batch, PublicKey};
use dod_worker::committee::Committee;
use dod_worker::global_batch::build_global_batch;
use dod_worker::global_orderer::{
    Acknowledgements, GlobalOrderer, GraphOutcome, STABILIZATION_DELAY_NS,
};
use dod_worker::transaction::{parse_transaction_id_and_state_key, Transaction};

fn key(n: u8) -> PublicKey {
    PublicKey([n; 32])
}

fn keys() -> Vec<PublicKey> {
    vec![key(1), key(2), key(3), key(4)]
}

fn committee() -> Committee {
    Committee::new(keys().into_iter().map(|name| (name, 1)).collect()).unwrap()
}

fn standard_transaction(id: u64, state_key: u8) -> Transaction {
    let mut tx = Vec::with_capacity(100);
    tx.push(1u8);
    tx.extend_from_slice(&id.to_be_bytes());
    tx.push(state_key);
    tx.resize(100, 0u8);
    tx
}

fn legacy_sample_transaction(id: u64) -> Transaction {
    let mut tx = Vec::with_capacity(9);
    tx.push(0u8);
    tx.extend_from_slice(&id.to_be_bytes());
    tx
}

fn tx_ids(batch: &Batch) -> Vec<u64> {
    batch
        .transactions
        .iter()
        .filter_map(|tx| parse_transaction_id_and_state_key(tx).map(|(tx_id, _)| tx_id))
        .collect()
}

fn graph(
    author: PublicKey,
    sequence: u64,
    transactions: Vec<Transaction>,
    edges: Vec<(u64, u64)>,
    missing_edges: Vec<(u64, u64)>,
) -> Batch {
    Batch { author, sequence, transactions, edges, missing_edges }
}

fn writes(ids: &[u64], state_key: u8) -> Vec<Transaction> {
    ids.iter().map(|id| standard_transaction(*id, state_key)).collect()
}

/// The name of the orderer, and of two of its peers.
fn names() -> (PublicKey, PublicKey, PublicKey) {
    (key(4), key(1), key(2))
}

/// Hands the graphs to an orderer, the first one as its own, and waits for their round to settle.
fn order_with(orderer: &mut GlobalOrderer, graphs: Vec<Batch>) -> Batch {
    let sequence = graphs[0].sequence;
    for (index, graph) in graphs.into_iter().enumerate() {
        assert_eq!(
            orderer.handle_local_graph(graph, index == 0, 5),
            GraphOutcome::Recorded
        );
    }
    assert!(orderer.ready_sequences(5).is_empty());
    assert_eq!(
        orderer.ready_sequences(5 + STABILIZATION_DELAY_NS),
        vec![sequence]
    );
    let batch = orderer.order_sequence(sequence).unwrap();
    orderer.finish_sequence(sequence);
    assert!(orderer.ready_sequences(5 + STABILIZATION_DELAY_NS).is_empty());
    batch
}

fn order(graphs: Vec<Batch>) -> Batch {
    let mut orderer = GlobalOrderer::new(names().0, committee());
    order_with(&mut orderer, graphs)
}

/// The global graph where all three authorities report the same.
fn order_same(
    transactions: Vec<Transaction>,
    edges: Vec<(u64, u64)>,
    missing_edges: Vec<(u64, u64)>,
) -> Batch {
    let (name, first, second) = names();
    order(
        vec![name, first, second]
            .into_iter()
            .map(|author| {
                graph(author, 0, transactions.clone(), edges.clone(), missing_edges.clone())
            })
            .collect(),
    )
}

#[test]
fn emits_global_batch_after_n_minus_f_local_graphs() {
    let batch = order_same(writes(&[10, 11], 7), vec![(10, 11)], vec![]);
    assert_eq!(batch.author, names().0);
    assert_eq!(batch.sequence, 0);
    assert_eq!(tx_ids(&batch), vec![10, 11]);
    assert_eq!(batch.edges, vec![(10, 11)]);
}

#[test]
fn keeps_legacy_sample_transactions_in_global_graph() {
    let batch = order_same(
        vec![legacy_sample_transaction(7), standard_transaction(8, 1)],
        vec![],
        vec![],
    );
    assert_eq!(batch.sequence, 0);
    assert_eq!(tx_ids(&batch), vec![7, 8]);

    let sample = batch
        .transactions
        .iter()
        .find(|tx| tx.first() == Some(&0u8))
        .expect("legacy sample transaction should be preserved");
    assert_eq!(sample.len(), 9);
}

#[test]
fn performs_transitive_reduction_on_global_graph() {
    let batch = order_same(writes(&[1, 2, 3], 9), vec![(1, 2), (2, 3), (1, 3)], vec![]);
    assert_eq!(tx_ids(&batch), vec![1, 2, 3]);
    assert_eq!(batch.edges, vec![(1, 2), (2, 3)]);
}

#[test]
fn records_missing_edges_when_support_is_ambiguous() {
    let (name, first, second) = names();
    let batch = order(vec![
        graph(name, 0, writes(&[1, 2], 5), vec![(1, 2)], vec![]),
        graph(first, 0, writes(&[1, 2], 5), vec![(2, 1)], vec![]),
        graph(second, 0, writes(&[1, 2], 5), vec![], vec![]),
    ]);
    assert!(batch.edges.is_empty());
    assert_eq!(batch.missing_edges, vec![(1, 2)]);
}

#[test]
fn keeps_only_frontier_missing_edges_within_a_key() {
    let batch = order_same(writes(&[1, 2, 3], 5), vec![], vec![]);
    assert!(batch.edges.is_empty());
    assert_eq!(batch.missing_edges, vec![(1, 2), (2, 3)]);
}

#[test]
fn skips_missing_edges_after_linearizing_same_scc() {
    let batch = order_same(writes(&[1, 2, 3], 5), vec![(1, 2), (2, 3), (3, 1)], vec![]);
    assert_eq!(tx_ids(&batch), vec![1, 2, 3]);
    assert_eq!(batch.edges, vec![(1, 2), (2, 3)]);
    assert!(batch.missing_edges.is_empty());
}

#[test]
fn forwards_local_missing_predecessors_into_global_batch() {
    let batch = order_same(writes(&[43], 5), vec![], vec![(41, 43)]);
    assert_eq!(tx_ids(&batch), vec![43]);
    assert_eq!(batch.missing_edges, vec![(41, 43)]);
}

#[test]
fn upgrades_supported_in_batch_missing_predecessors_into_edges() {
    let batch = order_same(writes(&[41, 43], 5), vec![], vec![(41, 43)]);
    assert_eq!(tx_ids(&batch), vec![41, 43]);
    assert_eq!(batch.edges, vec![(41, 43)]);
    assert!(batch.missing_edges.is_empty());
}

#[test]
fn combines_edge_and_missing_support_when_promoting_in_batch_edges() {
    let (name, first, second) = names();
    let batch = order(vec![
        graph(name, 0, writes(&[41, 43], 5), vec![(41, 43)], vec![]),
        graph(first, 0, writes(&[41, 43], 5), vec![], vec![(41, 43)]),
        graph(second, 0, writes(&[41, 43], 5), vec![], vec![]),
    ]);
    assert_eq!(tx_ids(&batch), vec![41, 43]);
    assert_eq!(batch.edges, vec![(41, 43)]);
    assert!(batch.missing_edges.is_empty());
}

#[test]
fn accumulates_missing_support_across_global_rounds() {
    let (name, first, second) = names();
    let mut orderer = GlobalOrderer::new(name, committee());
    orderer.observe_global_batch(&graph(first, 0, writes(&[41, 43], 5), vec![], vec![(41, 43)]));

    let batch = order_with(
        &mut orderer,
        vec![
            graph(name, 1, writes(&[41, 43], 5), vec![(41, 43)], vec![]),
            graph(first, 1, writes(&[41, 43], 5), vec![], vec![]),
            graph(second, 1, writes(&[41, 43], 5), vec![], vec![]),
        ],
    );
    assert_eq!(batch.sequence, 1);
    assert_eq!(tx_ids(&batch), vec![41, 43]);
    assert_eq!(batch.edges, vec![(41, 43)]);
    assert!(batch.missing_edges.is_empty());
}

#[test]
fn observed_pairs_of_strangers_do_not_count() {
    let (name, first, second) = names();
    let mut orderer = GlobalOrderer::new(name, committee());
    orderer.observe_global_batch(&graph(key(9), 0, writes(&[41, 43], 5), vec![], vec![(41, 43)]));

    let batch = order_with(
        &mut orderer,
        vec![
            graph(name, 1, writes(&[41, 43], 5), vec![(41, 43)], vec![]),
            graph(first, 1, writes(&[41, 43], 5), vec![], vec![]),
            graph(second, 1, writes(&[41, 43], 5), vec![], vec![]),
        ],
    );
    assert!(batch.edges.is_empty());
    assert_eq!(batch.missing_edges, vec![(41, 43)]);
}

#[test]
fn keeps_only_frontier_promoted_in_batch_edges() {
    let batch = order_same(writes(&[1, 2, 3], 5), vec![], vec![(1, 3), (2, 3)]);
    assert_eq!(tx_ids(&batch), vec![1, 2, 3]);
    assert_eq!(batch.edges, vec![(2, 3)]);
    assert_eq!(batch.missing_edges, vec![(1, 2)]);
}

#[test]
fn forwarded_missing_predecessors_need_multi_graph_support() {
    let (name, first, second) = names();
    let batch = order(vec![
        graph(name, 0, writes(&[43], 5), vec![], vec![(41, 43)]),
        graph(first, 0, writes(&[43], 5), vec![], vec![]),
        graph(second, 0, writes(&[43], 5), vec![], vec![]),
    ]);
    assert_eq!(tx_ids(&batch), vec![43]);
    assert!(batch.missing_edges.is_empty());
}

#[test]
fn selects_a_deterministic_quorum_subset() {
    let committee = committee();
    let authors = keys();

    let local_graphs: Vec<Batch> = authors
        .iter()
        .enumerate()
        .rev()
        .map(|(index, author)| Batch {
            author: *author,
            sequence: 7,
            transactions: vec![standard_transaction(100 + index as u64, 1)],
            edges: Vec::new(),
            missing_edges: Vec::new(),
        })
        .collect();

    let selected = GlobalOrderer::select_quorum_graphs(&committee, &local_graphs);
    let selected_authors: Vec<_> = selected.iter().map(|batch| batch.author).collect();

    assert_eq!(selected.len(), committee.quorum_threshold() as usize);
    assert_eq!(
        selected_authors,
        authors[..committee.quorum_threshold() as usize].to_vec()
    );
}

#[test]
fn selection_does_not_depend_on_the_order_of_arrival() {
    let committee = committee();
    let forward: Vec<Batch> =
        keys().into_iter().map(|author| graph(author, 7, writes(&[1], 1), vec![], vec![])).collect();
    let mut backward = forward.clone();
    backward.reverse();
    assert_eq!(
        GlobalOrderer::select_quorum_graphs(&committee, &forward),
        GlobalOrderer::select_quorum_graphs(&committee, &backward)
    );
}

#[test]
fn too_few_graphs_are_no_quorum() {
    let committee = committee();
    let graphs: Vec<Batch> = keys()
        .into_iter()
        .take(2)
        .map(|author| graph(author, 7, writes(&[1], 1), vec![], vec![]))
        .collect();
    assert!(GlobalOrderer::select_quorum_graphs(&committee, &graphs).is_empty());
}

#[test]
fn graphs_are_ignored_for_a_reason() {
    let (name, first, _) = names();
    let mut orderer = GlobalOrderer::new(name, committee());
    let of = |author: PublicKey| graph(author, 3, writes(&[1], 1), vec![], vec![]);
    assert_eq!(
        orderer.handle_local_graph(of(key(9)), false, 0),
        GraphOutcome::UnknownAuthor
    );
    assert_eq!(
        orderer.handle_local_graph(of(first), true, 0),
        GraphOutcome::WrongAuthor
    );
    assert_eq!(
        orderer.handle_local_graph(of(first), false, 0),
        GraphOutcome::Recorded
    );
    assert_eq!(orderer.order_sequence(3), None);
    orderer.finish_sequence(3);
    assert_eq!(
        orderer.handle_local_graph(of(first), false, 0),
        GraphOutcome::Finalized
    );
}

#[test]
fn repeated_graphs_count_once() {
    let (name, first, _) = names();
    let mut orderer = GlobalOrderer::new(name, committee());
    for author in vec![name, first, first, first] {
        let local = graph(author, 0, writes(&[1], 1), vec![], vec![]);
        orderer.handle_local_graph(local, author == name, 0);
    }
    assert!(orderer.ready_sequences(STABILIZATION_DELAY_NS).is_empty());
    assert_eq!(orderer.order_sequence(0), None);
}

#[test]
fn a_round_waits_for_our_own_graph() {
    let mut orderer = GlobalOrderer::new(key(4), committee());
    for author in vec![key(1), key(2), key(3)] {
        orderer.handle_local_graph(graph(author, 0, writes(&[1], 1), vec![], vec![]), false, 0);
    }
    assert!(orderer.ready_sequences(u64::MAX).is_empty());
    orderer.handle_local_graph(graph(key(4), 0, writes(&[1], 1), vec![], vec![]), true, 100);
    assert!(orderer.ready_sequences(99 + STABILIZATION_DELAY_NS).is_empty());
    assert_eq!(orderer.ready_sequences(100 + STABILIZATION_DELAY_NS), vec![0]);
}

#[test]
fn weakly_supported_transactions_are_left_out() {
    let (name, first, second) = names();
    let batch = order(vec![
        graph(name, 0, writes(&[1, 2], 5), vec![(1, 2)], vec![]),
        graph(first, 0, writes(&[1], 5), vec![], vec![]),
        graph(second, 0, writes(&[1], 5), vec![], vec![]),
    ]);
    assert_eq!(tx_ids(&batch), vec![1]);
    assert!(batch.edges.is_empty());
}

#[test]
fn transactions_are_listed_along_the_edges() {
    let graphs: Vec<Batch> = keys()
        .into_iter()
        .take(3)
        .map(|author| graph(author, 4, writes(&[1, 2, 3], 5), vec![(3, 2), (2, 1)], vec![]))
        .collect();
    let batch = build_global_batch(key(2), &committee(), 4, &graphs, &Vec::new());
    assert_eq!(batch.author, key(2));
    assert_eq!(batch.sequence, 4);
    assert_eq!(tx_ids(&batch), vec![3, 2, 1]);
    assert_eq!(batch.edges, vec![(2, 1), (3, 2)]);
    assert!(batch.missing_edges.is_empty());
}

#[test]
fn the_order_of_the_local_graphs_makes_no_difference() {
    let local = |n: u8| match n {
        1 => graph(key(1), 4, writes(&[1, 2, 3], 5), vec![(3, 2), (2, 1)], vec![(1, 9)]),
        2 => graph(key(2), 4, writes(&[2, 1, 3], 5), vec![(2, 1), (1, 2)], vec![(1, 9)]),
        _ => graph(key(3), 4, writes(&[3, 1, 2], 5), vec![(3, 2)], vec![(1, 3)]),
    };
    let derive = |places: [u8; 3]| {
        let graphs: Vec<Batch> = places.into_iter().map(local).collect();
        let earlier = vec![(key(4), [(1, 3)].into_iter().collect())];
        build_global_batch(key(2), &committee(), 4, &graphs, &earlier)
    };
    let batch = derive([1, 2, 3]);
    assert_eq!(tx_ids(&batch), vec![3, 2, 1]);
    for places in vec![[1, 3, 2], [2, 1, 3], [2, 3, 1], [3, 1, 2], [3, 2, 1]] {
        assert_eq!(derive(places), batch);
    }
}

#[test]
fn acknowledgements_add_up_to_a_quorum() {
    let committee = committee();
    let mut acks = Acknowledgements::new(&committee, &key(4), 3);
    assert!(!acks.reached_quorum());
    acks.acknowledge(&committee, &key(1));
    assert!(!acks.reached_quorum());
    acks.acknowledge(&committee, &key(9));
    assert!(!acks.reached_quorum());
    acks.acknowledge(&committee, &key(2));
    assert!(acks.reached_quorum());

    assert!(Acknowledgements::new(&committee, &key(4), 0).reached_quorum());
}

#[test]
fn committees_know_their_stakes() {
    let committee = committee();
    assert_eq!(committee.size(), 4);
    assert_eq!(committee.quorum_threshold(), 3);
    assert_eq!(committee.stake(&key(1)), 1);
    assert_eq!(committee.stake(&key(9)), 0);

    let uneven = Committee::new(vec![(key(1), 5), (key(2), 2), (key(3), 0)]).unwrap();
    assert_eq!(uneven.quorum_threshold(), 5);
    assert!(Committee::new(vec![(key(1), 1), (key(1), 2)]).is_none());
    assert!(Committee::new(vec![(key(1), u32::MAX), (key(2), 1)]).is_none());
}

#[test]
fn replicas_agree_whatever_comes_first() {
    let local = |author: PublicKey| match author {
        a if a == key(1) => graph(a, 1, writes(&[1, 2, 3], 5), vec![(1, 2)], vec![]),
        a if a == key(2) => graph(a, 1, writes(&[3, 2, 1], 5), vec![(2, 1)], vec![(2, 3)]),
        a => graph(a, 1, writes(&[2, 1, 3], 5), vec![(1, 2)], vec![]),
    };
    let earlier = |author: PublicKey| graph(author, 0, writes(&[2, 3], 5), vec![], vec![(2, 3)]);

    let mut one = GlobalOrderer::new(key(3), committee());
    one.observe_global_batch(&earlier(key(1)));
    one.observe_global_batch(&earlier(key(4)));
    let mut two = GlobalOrderer::new(key(1), committee());
    two.observe_global_batch(&earlier(key(4)));
    two.observe_global_batch(&earlier(key(1)));

    let a = order_with(&mut one, vec![local(key(3)), local(key(1)), local(key(2))]);
    let b = order_with(&mut two, vec![local(key(1)), local(key(2)), local(key(3))]);
    assert_eq!(a.transactions, b.transactions);
    assert_eq!(a.edges, vec![(1, 2), (2, 3)]);
    assert_eq!(a.edges, b.edges);
    assert_eq!(a.missing_edges, b.missing_edges);
    assert_ne!(a.author, b.author);
}
