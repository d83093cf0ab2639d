use dod_worker::client::{drop_failed, Address, Client, ClientError};
use dod_worker::transaction::{
    parse_standard_transaction, parse_transaction_id_and_state_key, payload_size,
    sample_transaction_ids,
};

fn address(port: u16) -> Address {
    Address::V4 { ip: 0x7f00_0001, port }
}

fn client(size: usize, rate: u64) -> Client {
    Client { target: address(1), size, rate, client_id: 3, nodes: vec![] }
}

#[test]
fn sample_ids_name_the_client_and_the_burst() {
    assert_eq!(client(10, 20).sample_id(0), 0x0003_0000_0000_0000);
    assert_eq!(client(10, 20).sample_id(5), 0x0003_0000_0000_0005);
    assert_eq!(client(10, 20).sample_id(u64::MAX), 0x0003_FFFF_FFFF_FFFF);
    assert_ne!(
        Client { client_id: 4, ..client(10, 20) }.sample_id(5),
        client(10, 20).sample_id(5)
    );
}

#[test]
fn targets_are_listed_once() {
    let v6 = Address::V6 { ip_v6: 1, port: 1, flow_info: 0, scope_id: 0 };
    let nodes = vec![address(2), v6, address(1), address(2)];
    let client = Client { nodes, ..client(10, 20) };
    assert_eq!(client.targets(), Ok(vec![address(1), address(2), v6]));
}

#[test]
fn errors_come_for_a_reason() {
    assert_eq!(client(9, 20).targets(), Err(ClientError::TransactionTooSmall));
    let error = |size: usize, rate: u64, connections: usize| {
        client(size, rate).start(connections).err().map(|error| error.message())
    };
    assert_eq!(
        error(9, 0, 0),
        Some("Transaction size must be at least 10 bytes for DoD Protocol")
    );
    assert_eq!(error(10, 0, 0), Some("Failed to connect to any replica"));
    assert_eq!(error(10, 19, 1), Some("Transaction rate must be at least 20 tx/s"));
    assert_eq!(error(10, 20, 1), None);
}

#[test]
fn a_burst_has_one_sample_transaction() {
    let mut submission = match client(12, 60).start_at(1, 98) {
        Ok(submission) => submission,
        Err(error) => panic!("{}", error.message()),
    };
    assert_eq!(submission.burst, 3);
    submission.finish_burst();

    let first = submission.transaction(0);
    assert_eq!(first, vec![1, 0, 0, 0, 0, 0, 0, 0, 99, 99, 0, 0]);
    assert_eq!(submission.sample_at(0), None);
    assert_eq!(submission.sample_at(1), Some(0x0003_0000_0000_0001));
    let second = submission.transaction(1);
    assert_eq!(second, vec![0, 0, 3, 0, 0, 0, 0, 0, 1, 0, 0, 0]);
    let third = submission.transaction(2);
    assert_eq!(third, vec![1, 0, 0, 0, 0, 0, 0, 0, 100, 0, 0, 0]);

    assert_eq!(parse_standard_transaction(&first), Some((99, 99)));
    assert_eq!(parse_standard_transaction(&second), None);
    assert_eq!(
        parse_transaction_id_and_state_key(&second),
        Some((0x0003_0000_0000_0001, 0))
    );
    let all = vec![first, second, third];
    assert_eq!(sample_transaction_ids(&all), vec![0x0003_0000_0000_0001]);
    assert_eq!(payload_size(&all), 36);
}

#[test]
fn identifiers_wrap_around() {
    let mut submission = match client(10, 40).start_at(1, u64::MAX) {
        Ok(submission) => submission,
        Err(error) => panic!("{}", error.message()),
    };
    assert_eq!(submission.transaction(1), vec![1, 0, 0, 0, 0, 0, 0, 0, 0, 0]);
    assert_eq!(submission.last_id, 0);
}

#[test]
fn runs_start_at_random() {
    let start = |_: usize| client(10, 20).start(1).ok().map(|submission| submission.last_id);
    let starts: Vec<_> = (0..8).map(start).collect();
    assert!(starts.iter().any(|start| *start != starts[0]));
}

#[test]
fn failed_connections_are_dropped() {
    let mut connections = vec!['a', 'b', 'c', 'd', 'e'];
    drop_failed(&mut connections, &vec![0, 3]);
    assert_eq!(connections, vec!['e', 'b', 'c']);
    drop_failed(&mut connections, &vec![]);
    assert_eq!(connections, vec!['e', 'b', 'c']);
    drop_failed(&mut connections, &vec![0, 1, 2]);
    assert!(connections.is_empty());
}
