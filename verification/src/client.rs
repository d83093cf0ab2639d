//! The benchmark client: which transactions it submits, and to whom.

use rand::Rng;
use vstd::prelude::*;
use crate::batch::{bytes_lt, differs_at, lemma_bytes_lt_total};
use crate::transaction::{big_endian, id_and_key, sample_id, standard_id_and_key, Transaction};

verus! {

/// How many bursts are sent in a second.
pub const PRECISION: u64 = 20;

/// How long a burst lasts, in milliseconds.
pub const BURST_DURATION: u64 = 50;

/// The size of the smallest transaction: kind, identifier and state key.
pub const MIN_TRANSACTION_SIZE: usize = 10;

/// How many state keys the standard transactions spread over.
pub const STATE_KEYS: u64 = 100;

/// The network address of a replica.
#[derive(Clone, Copy, Debug, PartialEq, Eq, Structural)]
pub enum Address {
    V4 { ip: u32, port: u16 },
    V6 { ip_v6: u128, port: u16, flow_info: u32, scope_id: u32 },
}

/// Why no transactions can be submitted.
#[derive(Clone, Copy, Debug, PartialEq, Eq, Structural)]
pub enum ClientError {
    /// A transaction would be too small for its layout.
    TransactionTooSmall,
    /// There is no connection to any replica.
    NoReplica,
    /// The rate leaves nothing to send in a burst.
    RateTooLow,
}

impl ClientError {
    /// The error in words.
    pub fn message(&self) -> (text: &'static str)
        ensures
            text@ == match self {
                ClientError::TransactionTooSmall =>
                    "Transaction size must be at least 10 bytes for DoD Protocol"@,
                ClientError::NoReplica => "Failed to connect to any replica"@,
                ClientError::RateTooLow => "Transaction rate must be at least 20 tx/s"@,
            },
    {
        match self {
            ClientError::TransactionTooSmall =>
                "Transaction size must be at least 10 bytes for DoD Protocol",
            ClientError::NoReplica => "Failed to connect to any replica",
            ClientError::RateTooLow => "Transaction rate must be at least 20 tx/s",
        }
    }
}

/// A number as eight bytes, most significant byte first.
pub open spec fn to_big_endian(n: u64) -> Seq<u8> {
    seq![
        (n as int / 0x100_0000_0000_0000) as u8,
        (n as int / 0x1_0000_0000_0000 % 0x100) as u8,
        (n as int / 0x100_0000_0000 % 0x100) as u8,
        (n as int / 0x1_0000_0000 % 0x100) as u8,
        (n as int / 0x100_0000 % 0x100) as u8,
        (n as int / 0x1_0000 % 0x100) as u8,
        (n as int / 0x100 % 0x100) as u8,
        (n as int % 0x100) as u8,
    ]
}

/// The bytes of a transaction of `size` bytes: kind, identifier, state key, and zeros.
pub open spec fn transaction_bytes(kind: u8, id: u64, key: u8, size: nat) -> Seq<u8> {
    seq![kind] + to_big_endian(id) + seq![key] + Seq::new(
        (size - MIN_TRANSACTION_SIZE) as nat,
        |i: int| 0u8,
    )
}

/// The addresses without those that stand further to the front already.
pub open spec fn first_occurrences(addresses: Seq<Address>) -> Seq<Address>
    decreases addresses.len(),
{
    if addresses.len() == 0 {
        Seq::empty()
    } else {
        let fewer = first_occurrences(addresses.drop_last());
        if addresses.drop_last().contains(addresses.last()) {
            fewer
        } else {
            fewer.push(addresses.last())
        }
    }
}

/// The identifier of the sample transaction number `counter` of a client.
pub open spec fn client_sample_id(client_id: u16, counter: u64) -> int {
    client_id * 0x1_0000_0000_0000 + counter as int % 0x1_0000_0000_0000
}

/// The connections without those at the positions `failed`. From the last one on, the gap that a
/// connection leaves is filled by the last connection.
pub open spec fn without_failed<T>(connections: Seq<T>, failed: Seq<usize>) -> Seq<T>
    decreases failed.len(),
{
    if failed.len() == 0 {
        connections
    } else {
        without_failed(
            connections.update(failed.last() as int, connections.last()).drop_last(),
            failed.drop_last(),
        )
    }
}

/// Positions in a list of `len` items, in ascending order.
pub open spec fn ascending_positions(positions: Seq<usize>, len: nat) -> bool {
    &&& forall|i: int| 0 <= i < positions.len() ==> (#[trigger] positions[i]) < len
    &&& forall|i: int, j: int| 0 <= i < j < positions.len() ==> positions[i] < positions[j]
}

/// The items at some positions.
pub open spec fn items_at<T>(items: Seq<T>, positions: Seq<usize>) -> Seq<T> {
    Seq::new(positions.len(), |i: int| items[positions[i] as int])
}

/// Writes out a transaction of `size` bytes.
fn write_transaction(kind: u8, id: u64, key: u8, size: usize) -> (tx: Transaction)
    requires
        size >= MIN_TRANSACTION_SIZE,
    ensures
        tx@ == transaction_bytes(kind, id, key, size as nat),
{
    let mut tx: Transaction = Vec::new();
    tx.push(kind);
    tx.push((id / 0x100_0000_0000_0000) as u8);
    tx.push((id / 0x1_0000_0000_0000 % 0x100) as u8);
    tx.push((id / 0x100_0000_0000 % 0x100) as u8);
    tx.push((id / 0x1_0000_0000 % 0x100) as u8);
    tx.push((id / 0x100_0000 % 0x100) as u8);
    tx.push((id / 0x1_0000 % 0x100) as u8);
    tx.push((id / 0x100 % 0x100) as u8);
    tx.push((id % 0x100) as u8);
    tx.push(key);
    let ghost header = tx@;
    assert(header =~= seq![kind] + to_big_endian(id) + seq![key]);
    tx.resize(size, 0u8);
    proof {
        assert(tx@.subrange(0, 10) =~= header);
        assert forall|i: int| 0 <= i < 10 implies tx@[i] == header[i] by {
            assert(tx@[i] == tx@.subrange(0, 10)[i]);
        }
        assert(tx@ =~= transaction_bytes(kind, id, key, size as nat));
    }
    tx
}

/// A benchmark client.
pub struct Client {
    /// The replica that the client belongs to.
    pub target: Address,
    /// The size of each transaction in bytes.
    pub size: usize,
    /// How many transactions are sent in a second.
    pub rate: u64,
    pub client_id: u16,
    /// The other replicas.
    pub nodes: Vec<Address>,
}

impl Client {
    /// The identifier of the sample transaction with the number `counter`.
    pub fn sample_id(&self, counter: u64) -> (id: u64)
        ensures
            id == client_sample_id(self.client_id, counter),
    {
        compose_sample_id(self.client_id, counter)
    }

    /// The replicas that transactions go to: the target, then the other nodes, each once.
    pub fn targets(&self) -> (result: Result<Vec<Address>, ClientError>)
        ensures
            match result {
                Ok(targets) => {
                    &&& self.size >= MIN_TRANSACTION_SIZE
                    &&& targets@ == first_occurrences(seq![self.target] + self.nodes@)
                },
                Err(error) => {
                    &&& self.size < MIN_TRANSACTION_SIZE
                    &&& error == ClientError::TransactionTooSmall
                },
            },
    {
        if self.size < MIN_TRANSACTION_SIZE {
            return Err(ClientError::TransactionTooSmall);
        }
        let ghost all = seq![self.target] + self.nodes@;
        let mut targets: Vec<Address> = Vec::new();
        targets.push(self.target);
        proof {
            assert(all.take(1) =~= seq![self.target]);
            assert(all.take(1).drop_last() =~= Seq::empty());
            reveal_with_fuel(first_occurrences, 2);
            assert(targets@ =~= first_occurrences(all.take(1)));
        }
        for i in 0..self.nodes.len()
            invariant
                all == seq![self.target] + self.nodes@,
                targets@ == first_occurrences(all.take(i + 1)),
        {
            let address = self.nodes[i];
            proof {
                assert(all.take(i + 2).drop_last() =~= all.take(i + 1));
                assert(all.take(i + 2).last() == address);
                lemma_first_occurrences(all.take(i + 1));
            }
            if !is_listed(&targets, address) {
                targets.push(address);
            }
        }
        assert(all.take(self.nodes@.len() as int + 1) =~= all);
        Ok(targets)
    }

    /// Starts to submit transactions over `connections` connections; `start` is where the
    /// identifiers of the standard transactions start.
    pub fn start_at(&self, connections: usize, start: u64) -> (result: Result<
        Submission,
        ClientError,
    >)
        ensures
            match result {
                Ok(submission) => {
                    &&& self.size >= MIN_TRANSACTION_SIZE && connections > 0 && self.rate
                        >= PRECISION
                    &&& submission == (Submission {
                        size: self.size,
                        burst: (self.rate / PRECISION) as u64,
                        client_id: self.client_id,
                        counter: 0,
                        last_id: start,
                    })
                    &&& submission.wf()
                },
                Err(error) => error == if self.size < MIN_TRANSACTION_SIZE {
                    ClientError::TransactionTooSmall
                } else if connections == 0 {
                    ClientError::NoReplica
                } else {
                    ClientError::RateTooLow
                } && (self.size < MIN_TRANSACTION_SIZE || connections == 0 || self.rate < PRECISION),
            },
    {
        if self.size < MIN_TRANSACTION_SIZE {
            return Err(ClientError::TransactionTooSmall);
        }
        if connections == 0 {
            return Err(ClientError::NoReplica);
        }
        let burst: u64 = self.rate / PRECISION;
        if burst == 0 {
            return Err(ClientError::RateTooLow);
        }
        Ok(
            Submission {
                size: self.size,
                burst,
                client_id: self.client_id,
                counter: 0,
                last_id: start,
            },
        )
    }

    /// Starts to submit transactions. The identifiers of the standard transactions start at random.
    pub fn start(&self, connections: usize) -> (result: Result<Submission, ClientError>)
        ensures
            match result {
                Ok(submission) => {
                    &&& self.size >= MIN_TRANSACTION_SIZE && connections > 0 && self.rate
                        >= PRECISION
                    &&& submission == (Submission {
                        size: self.size,
                        burst: (self.rate / PRECISION) as u64,
                        client_id: self.client_id,
                        counter: 0,
                        last_id: submission.last_id,
                    })
                    &&& submission.wf()
                },
                Err(error) => error == if self.size < MIN_TRANSACTION_SIZE {
                    ClientError::TransactionTooSmall
                } else if connections == 0 {
                    ClientError::NoReplica
                } else {
                    ClientError::RateTooLow
                } && (self.size < MIN_TRANSACTION_SIZE || connections == 0 || self.rate < PRECISION),
            },
    {
        self.start_at(connections, random_id())
    }
}

/// Calls `gen` of rand on the generator that `thread_rng` gives: draws a number. Nothing is claimed
/// of the number, since it is drawn at random.
#[verifier::external_body]
fn random_id() -> (id: u64) {
    rand::thread_rng().gen()
}

/// Whether `addresses` holds `address`.
fn is_listed(addresses: &Vec<Address>, address: Address) -> (listed: bool)
    ensures
        listed == addresses@.contains(address),
{
    for i in 0..addresses.len()
        invariant
            forall|j: int| 0 <= j < i ==> addresses@[j] != address,
    {
        if addresses[i] == address {
            return true;
        }
    }
    false
}

/// Puts the identifier of a client and the number of a sample transaction together.
fn compose_sample_id(client_id: u16, counter: u64) -> (id: u64)
    ensures
        id == client_sample_id(client_id, counter),
{
    let client: u64 = client_id as u64;
    assert((client << 48u64) | (counter & 0x0000_FFFF_FFFF_FFFFu64) == client * 0x1_0000_0000_0000
        + counter % 0x1_0000_0000_0000) by (bit_vector)
        requires
            client < 0x1_0000,
    ;
    (client << 48u64) | (counter & 0x0000_FFFF_FFFF_FFFFu64)
}

/// The state of a client that submits transactions, burst by burst.
pub struct Submission {
    pub size: usize,
    /// How many transactions a burst has.
    pub burst: u64,
    pub client_id: u16,
    /// The number of the burst.
    pub counter: u64,
    /// The identifier of the last standard transaction.
    pub last_id: u64,
}

impl Submission {
    /// Transactions have room for their layout, and bursts are not empty.
    pub open spec fn wf(self) -> bool {
        self.size >= MIN_TRANSACTION_SIZE && self.burst > 0
    }

    /// The position of the sample transaction in the current burst.
    pub open spec fn sample_position(self) -> int {
        self.counter as int % self.burst as int
    }

    /// The identifier of the next standard transaction.
    pub open spec fn next_id(self) -> u64 {
        if self.last_id == u64::MAX {
            0
        } else {
            (self.last_id + 1) as u64
        }
    }

    /// The identifier of the sample transaction if the transaction at position `x` of the current
    /// burst is one.
    pub fn sample_at(&self, x: u64) -> (id: Option<u64>)
        requires
            self.wf(),
        ensures
            id == if x == self.sample_position() {
                Some(client_sample_id(self.client_id, self.counter) as u64)
            } else {
                None::<u64>
            },
            id is Some ==> id->0 == client_sample_id(self.client_id, self.counter),
    {
        if x == self.counter % self.burst {
            Some(compose_sample_id(self.client_id, self.counter))
        } else {
            None
        }
    }

    /// The transaction at position `x` of the current burst.
    pub fn transaction(&mut self, x: u64) -> (tx: Transaction)
        requires
            old(self).wf(),
        ensures
            final(self).wf(),
            x == old(self).sample_position() ==> {
                &&& *final(self) == *old(self)
                &&& tx@ == transaction_bytes(
                    0,
                    client_sample_id(old(self).client_id, old(self).counter) as u64,
                    0,
                    old(self).size as nat,
                )
            },
            x != old(self).sample_position() ==> {
                let id = old(self).next_id();
                &&& *final(self) == (Submission { last_id: id, ..*old(self) })
                &&& tx@ == transaction_bytes(1, id, (id % STATE_KEYS) as u8, old(self).size as nat)
            },
            x as int == old(self).counter as int % old(self).burst as int ==> {
                &&& final(self).last_id == old(self).last_id
                &&& tx@[0] == 0
                &&& sample_id(tx@) == Some(
                    (old(self).client_id * 0x1_0000_0000_0000 + old(self).counter as int
                        % 0x1_0000_0000_0000) as u64,
                )
            },
            x as int != old(self).counter as int % old(self).burst as int ==> {
                let id = (old(self).last_id + 1) % 0x1_0000_0000_0000_0000;
                &&& final(self).last_id == id
                &&& standard_id_and_key(tx@) == Some((id as u64, (id % 100) as u8))
            },
            tx@.len() == old(self).size,
    {
        proof {
            let id = self.next_id();
            let size = self.size as nat;
            lemma_written_transaction_is_read_back(1, id, (id % STATE_KEYS) as u8, size);
            lemma_written_transaction_is_read_back(
                0,
                client_sample_id(self.client_id, self.counter) as u64,
                0,
                size,
            );
        }
        match self.sample_at(x) {
            Some(id) => write_transaction(0, id, 0, self.size),
            None => {
                self.last_id = self.last_id.wrapping_add(1);
                let id = self.last_id;
                write_transaction(1, id, (id % STATE_KEYS) as u8, self.size)
            },
        }
    }

    /// Goes on to the next burst.
    pub fn finish_burst(&mut self)
        requires
            old(self).counter < u64::MAX,
        ensures
            *final(self) == (Submission { counter: (old(self).counter + 1) as u64, ..*old(self) }),
    {
        self.counter += 1;
    }
}

/// Drops the connections at the positions `failed`.
pub fn drop_failed<T>(connections: &mut Vec<T>, failed: &Vec<usize>)
    requires
        ascending_positions(failed@, old(connections)@.len()),
    ensures
        final(connections)@ == without_failed(old(connections)@, failed@),
{
    let ghost start = connections@;
    let mut left: usize = failed.len();
    assert(failed@.take(left as int) =~= failed@);
    while left > 0
        invariant
            left <= failed@.len(),
            ascending_positions(failed@.take(left as int), connections@.len()),
            without_failed(connections@, failed@.take(left as int)) == without_failed(start, failed@),
        decreases left,
    {
        let ghost before = failed@.take(left as int);
        left -= 1;
        assert(before.drop_last() =~= failed@.take(left as int));
        assert(before.last() == failed@[left as int]);
        proof {
            let fewer = failed@.take(left as int);
            assert forall|i: int| 0 <= i < fewer.len() implies (#[trigger] fewer[i])
                < connections@.len() - 1 by {
                assert(before[i] < before[left as int]);
            }
            assert forall|i: int, j: int| 0 <= i < j < fewer.len() implies fewer[i] < fewer[j] by {
                assert(before[i] < before[j]);
            }
        }
        connections.swap_remove(failed[left]);
    }
    assert(failed@.take(0) =~= Seq::empty());
}

/// An address is among the first occurrences if and only if it is in the list.
proof fn lemma_first_occurrences(addresses: Seq<Address>)
    ensures
        forall|address: Address| #[trigger]
            first_occurrences(addresses).contains(address) <==> addresses.contains(address),
    decreases addresses.len(),
{
    if addresses.len() > 0 {
        let fewer = addresses.drop_last();
        lemma_first_occurrences(fewer);
        crate::ordered::lemma_push_contains(fewer, addresses.last());
        crate::ordered::lemma_push_contains(first_occurrences(fewer), addresses.last());
        assert(addresses =~= fewer.push(addresses.last()));
    }
}

/// The list of targets holds each address of the client once, in the order of the first mention.
pub proof fn lemma_targets_are_distinct(addresses: Seq<Address>)
    ensures
        first_occurrences(addresses).no_duplicates(),
        first_occurrences(addresses).to_set() == addresses.to_set(),
        addresses.len() > 0 ==> first_occurrences(addresses)[0] == addresses[0]
            && first_occurrences(addresses).len() > 0,
    decreases addresses.len(),
{
    lemma_first_occurrences(addresses);
    assert forall|address: Address| #[trigger]
        first_occurrences(addresses).to_set().contains(address) <==> addresses.to_set().contains(
            address,
        ) by {
        assert(first_occurrences(addresses).contains(address) <==> addresses.contains(address));
    }
    assert(first_occurrences(addresses).to_set() =~= addresses.to_set());
    if addresses.len() > 0 {
        let fewer = addresses.drop_last();
        lemma_targets_are_distinct(fewer);
        lemma_first_occurrences(fewer);
        assert(first_occurrences(fewer).contains(addresses.last()) <==> fewer.contains(
            addresses.last(),
        ));
        if fewer.len() == 0 {
            assert(!fewer.contains(addresses.last()));
        }
    }
}

/// `i` is where `address` is first mentioned.
pub open spec fn first_mention(addresses: Seq<Address>, address: Address, i: int) -> bool {
    &&& 0 <= i < addresses.len()
    &&& addresses[i] == address
    &&& forall|j: int| 0 <= j < i ==> addresses[j] != address
}

/// Targets are listed in the order in which they are first mentioned.
pub proof fn lemma_targets_keep_their_order(addresses: Seq<Address>, a: int, b: int, i: int, j: int)
    requires
        0 <= a < b < first_occurrences(addresses).len(),
        first_mention(addresses, first_occurrences(addresses)[a], i),
        first_mention(addresses, first_occurrences(addresses)[b], j),
    ensures
        i < j,
    decreases addresses.len(),
{
    let all = first_occurrences(addresses);
    let rest = addresses.drop_last();
    let fewer = first_occurrences(rest);
    lemma_targets_are_distinct(addresses);
    lemma_first_occurrences(rest);
    assert(all[a] == fewer[a]);
    assert(fewer.contains(fewer[a]));
    assert(rest.contains(all[a]));
    let k = choose|k: int| 0 <= k < rest.len() && rest[k] == all[a];
    assert(addresses[k] == all[a]);
    assert(i <= k);
    assert(rest[i] == all[a]);
    if b < fewer.len() {
        assert(all[b] == fewer[b]);
        assert(fewer.contains(fewer[b]));
        assert(rest.contains(all[b]));
        let l = choose|l: int| 0 <= l < rest.len() && rest[l] == all[b];
        assert(addresses[l] == all[b]);
        assert(j <= l);
        assert(rest[j] == all[b]);
        lemma_targets_keep_their_order(rest, a, b, i, j);
    } else {
        assert(!rest.contains(addresses.last()));
        assert(all[b] == addresses.last());
        if j < rest.len() {
            assert(rest[j] == all[b]);
            assert(rest.contains(all[b]));
        }
    }
}

/// The bytes of a number denote the number.
proof fn lemma_big_endian(n: u64)
    ensures
        big_endian(to_big_endian(n)) == n,
{
    let bytes = to_big_endian(n);
    let m = n as int;
    let d1 = m / 0x100;
    let d2 = m / 0x1_0000;
    let d3 = m / 0x100_0000;
    let d4 = m / 0x1_0000_0000;
    let d5 = m / 0x100_0000_0000;
    let d6 = m / 0x1_0000_0000_0000;
    let d7 = m / 0x100_0000_0000_0000;
    assert(m == d1 * 0x100 + m % 0x100);
    assert(d2 == d1 / 0x100 && d1 == d2 * 0x100 + d1 % 0x100);
    assert(d3 == d2 / 0x100 && d2 == d3 * 0x100 + d2 % 0x100);
    assert(d4 == d3 / 0x100 && d3 == d4 * 0x100 + d3 % 0x100);
    assert(d5 == d4 / 0x100 && d4 == d5 * 0x100 + d4 % 0x100);
    assert(d6 == d5 / 0x100 && d5 == d6 * 0x100 + d5 % 0x100);
    assert(d7 == d6 / 0x100 && d6 == d7 * 0x100 + d6 % 0x100);
    assert(d7 < 0x100);
}

/// Smaller numbers have smaller bytes.
pub proof fn lemma_big_endian_keeps_order(a: u64, b: u64)
    requires
        a < b,
    ensures
        bytes_lt(to_big_endian(a), to_big_endian(b)),
{
    let s = to_big_endian(a);
    let t = to_big_endian(b);
    lemma_big_endian(a);
    lemma_big_endian(b);
    lemma_bytes_lt_total(s, t);
    if bytes_lt(t, s) {
        let k = choose|k: int| #[trigger] differs_at(t, s, k);
        assert(0 <= k < 8);
        assert(forall|i: int| 0 <= i < k ==> t[i] == s[i]);
        if k == 0 {
        } else if k == 1 {
            assert(t[0] == s[0]);
        } else if k == 2 {
            assert(t[0] == s[0] && t[1] == s[1]);
        } else if k == 3 {
            assert(t[0] == s[0] && t[1] == s[1] && t[2] == s[2]);
        } else if k == 4 {
            assert(t[0] == s[0] && t[1] == s[1] && t[2] == s[2] && t[3] == s[3]);
        } else if k == 5 {
            assert(t[0] == s[0] && t[1] == s[1] && t[2] == s[2] && t[3] == s[3] && t[4] == s[4]);
        } else if k == 6 {
            assert(t[0] == s[0] && t[1] == s[1] && t[2] == s[2] && t[3] == s[3] && t[4] == s[4]
                && t[5] == s[5]);
        } else {
            assert(t[0] == s[0] && t[1] == s[1] && t[2] == s[2] && t[3] == s[3] && t[4] == s[4]
                && t[5] == s[5] && t[6] == s[6]);
        }
        assert(t[k] < s[k]);
        assert(big_endian(t) < big_endian(s));
    }
}

proof fn lemma_digit(rest: int, digit: u8)
    ensures
        (rest * 0x100 + digit) / 0x100 == rest,
        (rest * 0x100 + digit) % 0x100 == digit,
{
}

proof fn lemma_shifts(n: int)
    requires
        0 <= n,
    ensures
        n / 0x1_0000 == n / 0x100 / 0x100,
        n / 0x100_0000 == n / 0x100 / 0x100 / 0x100,
        n / 0x1_0000_0000 == n / 0x100 / 0x100 / 0x100 / 0x100,
        n / 0x100_0000_0000 == n / 0x100 / 0x100 / 0x100 / 0x100 / 0x100,
        n / 0x1_0000_0000_0000 == n / 0x100 / 0x100 / 0x100 / 0x100 / 0x100 / 0x100,
        n / 0x100_0000_0000_0000 == n / 0x100 / 0x100 / 0x100 / 0x100 / 0x100 / 0x100 / 0x100,
{
}

/// Writing what was read from a transaction gives back its first ten bytes.
pub proof fn lemma_read_transaction_is_written_back(tx: Seq<u8>)
    requires
        tx.len() >= MIN_TRANSACTION_SIZE,
    ensures
        id_and_key(tx) matches Some((id, key)) && transaction_bytes(
            tx[0],
            id,
            key,
            MIN_TRANSACTION_SIZE as nat,
        ) == tx.take(10),
{
    let bytes = tx.subrange(1, 9);
    let n = big_endian(bytes);
    assert(0 <= n <= u64::MAX);
    let id = n as u64;
    let d1 = n / 0x100;
    let d2 = d1 / 0x100;
    let d3 = d2 / 0x100;
    let d4 = d3 / 0x100;
    let d5 = d4 / 0x100;
    let d6 = d5 / 0x100;
    let d7 = d6 / 0x100;
    let c6 = bytes[0] * 0x100 + bytes[1];
    let c5 = c6 * 0x100 + bytes[2];
    let c4 = c5 * 0x100 + bytes[3];
    let c3 = c4 * 0x100 + bytes[4];
    let c2 = c3 * 0x100 + bytes[5];
    let c1 = c2 * 0x100 + bytes[6];
    assert(n == c1 * 0x100 + bytes[7]);
    lemma_digit(c1, bytes[7]);
    lemma_digit(c2, bytes[6]);
    lemma_digit(c3, bytes[5]);
    lemma_digit(c4, bytes[4]);
    lemma_digit(c5, bytes[3]);
    lemma_digit(c6, bytes[2]);
    lemma_digit(bytes[0] as int, bytes[1]);
    lemma_shifts(n);
    assert(to_big_endian(id) =~= bytes);
    assert(transaction_bytes(tx[0], id, tx[9], MIN_TRANSACTION_SIZE as nat) =~= tx.take(10));
}

/// What is read from a transaction is what was written into it: the identifier and the state key;
/// and a transaction is read as a standard or as a sample transaction by its kind.
pub proof fn lemma_written_transaction_is_read_back(kind: u8, id: u64, key: u8, size: nat)
    requires
        size >= MIN_TRANSACTION_SIZE,
    ensures
        transaction_bytes(kind, id, key, size).len() == size,
        id_and_key(transaction_bytes(kind, id, key, size)) == Some((id, key)),
        standard_id_and_key(transaction_bytes(kind, id, key, size)) == if kind == 1 {
            Some((id, key))
        } else {
            None
        },
        sample_id(transaction_bytes(kind, id, key, size)) == if kind == 0 {
            Some(id)
        } else {
            None
        },
{
    let tx = transaction_bytes(kind, id, key, size);
    assert(tx.subrange(1, 9) =~= to_big_endian(id));
    lemma_big_endian(id);
    assert(tx[0] == kind && tx[9] == key);
}

/// Sample transactions of different clients, and of different bursts of a client, have different
/// identifiers, as long as there are no more than 2^48 bursts.
pub proof fn lemma_sample_ids_differ(client: u16, counter: u64, other: u16, later: u64)
    requires
        client != other || counter != later,
        counter < 0x1_0000_0000_0000,
        later < 0x1_0000_0000_0000,
    ensures
        client_sample_id(client, counter) != client_sample_id(other, later),
        0 <= client_sample_id(client, counter) <= u64::MAX,
{
}

/// The identifier of a sample transaction tells the client, and the number of the burst up to 2^48.
pub proof fn lemma_sample_id_tells_client_and_burst(client: u16, counter: u64)
    ensures
        client_sample_id(client, counter) / 0x1_0000_0000_0000 == client,
        client_sample_id(client, counter) % 0x1_0000_0000_0000 == counter as int
            % 0x1_0000_0000_0000,
{
    assert(0 <= counter as int % 0x1_0000_0000_0000 < 0x1_0000_0000_0000);
}

/// The state after `n` more standard transactions.
pub open spec fn after_standard(submission: Submission, n: nat) -> Submission
    decreases n,
{
    if n == 0 {
        submission
    } else {
        let before = after_standard(submission, (n - 1) as nat);
        Submission { last_id: before.next_id(), ..before }
    }
}

/// The identifiers of the standard transactions are consecutive modulo 2^64, so that none comes
/// twice within 2^64 of them.
pub proof fn lemma_standard_ids_are_unique(submission: Submission, m: nat, n: nat)
    ensures
        after_standard(submission, n).next_id() == (submission.last_id + n + 1)
            % 0x1_0000_0000_0000_0000,
        m < n && n - m < 0x1_0000_0000_0000_0000 ==> after_standard(submission, m).next_id()
            != after_standard(submission, n).next_id(),
{
    lemma_standard_ids(submission, m);
    lemma_standard_ids(submission, n);
    let modulus: int = 0x1_0000_0000_0000_0000;
    if m < n && n - m < modulus {
        let a = submission.last_id + m + 1;
        let b = submission.last_id + n + 1;
        if a % modulus == b % modulus {
            assert((b - a) % modulus == 0) by (nonlinear_arith)
                requires
                    a % modulus == b % modulus,
                    modulus == 0x1_0000_0000_0000_0000,
            ;
        }
    }
}

proof fn lemma_standard_ids(submission: Submission, n: nat)
    ensures
        after_standard(submission, n).last_id == (submission.last_id + n)
            % 0x1_0000_0000_0000_0000,
        after_standard(submission, n).next_id() == (submission.last_id + n + 1)
            % 0x1_0000_0000_0000_0000,
    decreases n,
{
    if n > 0 {
        lemma_standard_ids(submission, (n - 1) as nat);
    }
}

/// From one burst to the next the sample transaction moves on by one position, and starts again
/// after the last one.
pub proof fn lemma_sample_moves_on(submission: Submission, next: Submission)
    requires
        submission.wf(),
        next.burst == submission.burst,
        next.counter == submission.counter + 1,
    ensures
        next.sample_position() == if submission.sample_position() == submission.burst - 1 {
            0
        } else {
            submission.sample_position() + 1
        },
{
    let b = submission.burst as int;
    let c = submission.counter as int;
    vstd::arithmetic::div_mod::lemma_fundamental_div_mod(c, b);
    vstd::arithmetic::div_mod::lemma_mod_bound(c, b);
    let q = c / b;
    let r = c % b;
    if r == b - 1 {
        assert(c + 1 == (q + 1) * b + 0) by (nonlinear_arith)
            requires
                c == b * q + r,
                r == b - 1,
        ;
        vstd::arithmetic::div_mod::lemma_fundamental_div_mod_converse(c + 1, b, q + 1, 0);
    } else {
        assert(c + 1 == q * b + (r + 1)) by (nonlinear_arith)
            requires
                c == b * q + r,
        ;
        vstd::arithmetic::div_mod::lemma_fundamental_div_mod_converse(c + 1, b, q, r + 1);
    }
}

/// The bursts of a second have as many transactions as the rate asks for, but for what does not
/// divide evenly; and they fill the second.
pub proof fn lemma_bursts_meet_the_rate(rate: u64)
    ensures
        20 * (rate / PRECISION) <= rate < 20 * (rate / PRECISION) + 20,
        PRECISION * BURST_DURATION == 1_000,
{
}

/// A burst has one sample transaction, and the rest of it are standard transactions.
pub proof fn lemma_one_sample_in_a_burst(submission: Submission)
    requires
        submission.wf(),
    ensures
        0 <= submission.sample_position() < submission.burst,
{
    vstd::arithmetic::div_mod::lemma_mod_bound(
        submission.counter as int,
        submission.burst as int,
    );
}

/// The connections that have failed are dropped, and all others are kept.
pub proof fn lemma_failed_connections_are_dropped<T>(connections: Seq<T>, failed: Seq<usize>)
    requires
        ascending_positions(failed, connections.len()),
    ensures
        without_failed(connections, failed).to_multiset().add(
            items_at(connections, failed).to_multiset(),
        ) =~= connections.to_multiset(),
        without_failed(connections, failed).len() == connections.len() - failed.len(),
    decreases failed.len(),
{
    broadcast use vstd::seq_lib::group_to_multiset_ensures;

    if failed.len() == 0 {
        assert(items_at(connections, failed) =~= Seq::<T>::empty());
    } else {
        let i = failed.last() as int;
        let last = connections.last();
        let filled = connections.update(i, last);
        let fewer = filled.drop_last();
        let rest = failed.drop_last();
        assert forall|k: int| 0 <= k < rest.len() implies (#[trigger] rest[k]) < fewer.len() by {
            assert(failed[k] < failed[failed.len() - 1]);
        }
        assert forall|j: int, k: int| 0 <= j < k < rest.len() implies rest[j] < rest[k] by {
            assert(failed[j] < failed[k]);
        }
        lemma_failed_connections_are_dropped(fewer, rest);
        assert(items_at(connections, failed) =~= items_at(fewer, rest).push(connections[i])) by {
            assert forall|k: int| 0 <= k < rest.len() implies fewer[rest[k] as int]
                == connections[#[trigger] rest[k] as int] by {
                assert(failed[k] < failed[failed.len() - 1]);
            }
        }
        let removed = connections.remove(i);
        if i == connections.len() - 1 {
            assert(fewer =~= removed);
        } else {
            let core = removed.drop_last();
            assert(removed =~= core.push(last));
            assert(fewer.remove(i) =~= core);
            assert(fewer[i] == last);
            assert(fewer.contains(last));
            assert(removed.to_multiset() =~= fewer.to_multiset());
        }
        assert(connections.contains(connections[i]));
        assert(removed.to_multiset().insert(connections[i]) =~= connections.to_multiset());
    }
}

/// A connection that has not failed stays where it is, unless it has to fill a gap further to the
/// front.
pub proof fn lemma_connections_stay_in_place<T>(
    connections: Seq<T>,
    failed: Seq<usize>,
    position: int,
)
    requires
        ascending_positions(failed, connections.len()),
        0 <= position < connections.len() - failed.len(),
        forall|i: int| 0 <= i < failed.len() ==> (#[trigger] failed[i]) != position,
    ensures
        without_failed(connections, failed)[position] == connections[position],
    decreases failed.len(),
{
    if failed.len() > 0 {
        let fewer = connections.update(failed.last() as int, connections.last()).drop_last();
        let rest = failed.drop_last();
        assert forall|k: int| 0 <= k < rest.len() implies (#[trigger] rest[k]) < fewer.len() by {
            assert(failed[k] < failed[failed.len() - 1]);
        }
        assert forall|j: int, k: int| 0 <= j < k < rest.len() implies rest[j] < rest[k] by {
            assert(failed[j] < failed[k]);
        }
        assert forall|i: int| 0 <= i < rest.len() implies (#[trigger] rest[i]) != position by {
            assert(rest[i] == failed[i]);
        }
        assert(failed[failed.len() - 1] != position);
        lemma_connections_stay_in_place(fewer, rest, position);
    }
}

} // verus!
