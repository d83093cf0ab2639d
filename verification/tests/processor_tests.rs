use dod_worker::batch::{Batch, Digest, PublicKey};
use dod_worker::batch_maker::BatchMaker;
use dod_worker::committee::Committee;
use dod_worker::global_orderer::{GlobalOrderer, STABILIZATION_DELAY_NS};
use dod_worker::processor::{Processor, WorkerPrimaryMessage};
use tokio::sync::mpsc::channel;

/// The first half of the SHA-512 hash of `abc`.
const ABC: [u8; 32] = [
    221, 175, 53, 161, 147, 97, 122, 186, 204, 65, 115, 73, 174, 32, 65, 49, 18, 230, 250, 78, 137,
    169, 126, 162, 10, 158, 238, 230, 75, 85, 211, 154,
];

#[test]
fn digests_are_truncated_hashes() {
    assert_eq!(Processor::digest(&b"abc".to_vec()), Digest(ABC));
    assert_ne!(Processor::digest(&b"abd".to_vec()), Digest(ABC));
    let mut hash = ABC.to_vec();
    hash.extend_from_slice(&[7u8; 32]);
    assert_eq!(Processor::truncate(&hash), Digest(ABC));
}

#[test]
fn reports_tell_whose_batch_it_is() {
    let own = Processor::process(5, &b"abc".to_vec(), true);
    assert_eq!(own, (Digest(ABC), WorkerPrimaryMessage::OurBatch(Digest(ABC), 5)));
    let other = Processor::process(5, &b"abc".to_vec(), false);
    assert_eq!(other, (Digest(ABC), WorkerPrimaryMessage::OthersBatch(Digest(ABC), 5)));
    assert_eq!(
        Processor::report(Digest(ABC), 6, true),
        WorkerPrimaryMessage::OurBatch(Digest(ABC), 6)
    );
}

fn standard_transaction(id: u64, state_key: u8) -> Vec<u8> {
    let mut tx = Vec::with_capacity(100);
    tx.push(1u8);
    tx.extend_from_slice(&id.to_be_bytes());
    tx.push(state_key);
    tx.resize(100, 0u8);
    tx
}

#[test]
fn client_transactions_become_a_global_graph() {
    let name = PublicKey([4; 32]);
    let peers = vec![PublicKey([1; 32]), PublicKey([2; 32])];
    let committee = Committee::new(vec![
        (peers[0], 1),
        (peers[1], 1),
        (PublicKey([3; 32]), 1),
        (name, 1),
    ])
    .unwrap();
    let (_tx_observation, rx_observation) = channel(1);
    let (_tx_processed, rx_processed) = channel(1);
    let mut batch_maker = BatchMaker::new(name, 200, rx_observation, rx_processed);
    let mut orderer = GlobalOrderer::new(name, committee);

    assert_eq!(batch_maker.ingest(standard_transaction(1, 7)), None);
    let own = batch_maker.ingest(standard_transaction(2, 7)).unwrap();
    orderer.handle_local_graph(own.clone(), true, 0);
    for peer in peers {
        orderer.handle_local_graph(Batch { author: peer, ..own.clone() }, false, 0);
    }
    assert_eq!(orderer.ready_sequences(STABILIZATION_DELAY_NS), vec![0]);

    let expected = Batch {
        author: name,
        sequence: 0,
        transactions: vec![standard_transaction(1, 7), standard_transaction(2, 7)],
        edges: vec![(1, 2)],
        missing_edges: Vec::new(),
    };
    assert_eq!(orderer.order_sequence(0), Some(expected));
}
