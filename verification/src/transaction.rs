//! The byte layout of client transactions.
//!
//! Two layouts are in use: a sample transaction starts with `0` and carries at
//! least an eight-byte big-endian identifier, a standard transaction starts
//! with `1`, and its identifier is followed by the one-byte key of the state
//! that it writes.

use vstd::prelude::*;

verus! {

/// A client transaction, as the bytes that were submitted.
pub type Transaction = Vec<u8>;

/// The number that the first eight bytes of `bytes` denote, most significant byte first.
pub open spec fn big_endian(bytes: Seq<u8>) -> int {
    bytes[0] * 0x100_0000_0000_0000 + bytes[1] * 0x1_0000_0000_0000 + bytes[2] * 0x100_0000_0000
        + bytes[3] * 0x1_0000_0000 + bytes[4] * 0x100_0000 + bytes[5] * 0x1_0000 + bytes[6] * 0x100
        + bytes[7]
}

/// The identifier and the state key of a transaction in either layout. A
/// transaction without a state key writes state `0`.
pub open spec fn id_and_key(tx: Seq<u8>) -> Option<(u64, u8)> {
    if tx.len() < 9 {
        None
    } else {
        Some(
            (
                big_endian(tx.subrange(1, 9)) as u64,
                if tx.len() >= 10 {
                    tx[9]
                } else {
                    0
                },
            ),
        )
    }
}

/// The identifier and the state key of a standard transaction.
pub open spec fn standard_id_and_key(tx: Seq<u8>) -> Option<(u64, u8)> {
    if tx.len() >= 10 && tx[0] == 1 {
        id_and_key(tx)
    } else {
        None
    }
}

/// The identifier of a transaction in either layout.
pub open spec fn tx_id(tx: Seq<u8>) -> Option<u64> {
    match id_and_key(tx) {
        Some((id, _)) => Some(id),
        None => None,
    }
}

/// The identifier of a standard transaction.
pub open spec fn standard_id(tx: Seq<u8>) -> Option<u64> {
    match standard_id_and_key(tx) {
        Some((id, _)) => Some(id),
        None => None,
    }
}

/// The identifiers of the standard transactions in `txs`.
pub open spec fn standard_ids(txs: Seq<Seq<u8>>) -> Set<u64> {
    Set::new(|id: u64| exists|i: int| 0 <= i < txs.len() && standard_id(#[trigger] txs[i]) == Some(id))
}

/// The identifiers of the transactions in `txs`, in either layout.
pub open spec fn tx_ids(txs: Seq<Seq<u8>>) -> Set<u64> {
    Set::new(|id: u64| exists|i: int| 0 <= i < txs.len() && tx_id(#[trigger] txs[i]) == Some(id))
}

/// A list of transactions has finitely many identifiers.
pub proof fn lemma_tx_ids_finite(txs: Seq<Seq<u8>>)
    ensures
        tx_ids(txs).finite(),
    decreases txs.len(),
{
    if txs.len() == 0 {
        assert(tx_ids(txs) =~= Set::empty());
    } else {
        let fewer = txs.drop_last();
        lemma_tx_ids_finite(fewer);
        let bound = match tx_id(txs.last()) {
            Some(id) => tx_ids(fewer).insert(id),
            None => tx_ids(fewer),
        };
        assert forall|id: u64| tx_ids(txs).contains(id) implies bound.contains(id) by {
            let i = choose|i: int| 0 <= i < txs.len() && tx_id(#[trigger] txs[i]) == Some(id);
            if i < fewer.len() {
                assert(fewer[i] == txs[i]);
            }
        }
        vstd::set_lib::lemma_set_subset_finite(bound, tx_ids(txs));
    }
}

/// Reads the identifier and the state key of a transaction in either layout.
pub fn parse_transaction_id_and_state_key(tx: &[u8]) -> (parsed: Option<(u64, u8)>)
    ensures
        parsed == id_and_key(tx@),
{
    if tx.len() < 9 {
        return None;
    }
    let tx_id: u64 = (tx[1] as u64) * 0x100_0000_0000_0000 + (tx[2] as u64) * 0x1_0000_0000_0000
        + (tx[3] as u64) * 0x100_0000_0000 + (tx[4] as u64) * 0x1_0000_0000 + (tx[5] as u64)
        * 0x100_0000 + (tx[6] as u64) * 0x1_0000 + (tx[7] as u64) * 0x100 + (tx[8] as u64);
    let state_key: u8 = if tx.len() >= 10 {
        tx[9]
    } else {
        0u8
    };
    Some((tx_id, state_key))
}

/// Reads the identifier and the state key of a standard transaction.
pub fn parse_standard_transaction(tx: &[u8]) -> (parsed: Option<(u64, u8)>)
    ensures
        parsed == standard_id_and_key(tx@),
{
    if tx.len() < 10 || tx[0] != 1u8 {
        return None;
    }
    parse_transaction_id_and_state_key(tx)
}

/// The identifier of a sample transaction.
pub open spec fn sample_id(tx: Seq<u8>) -> Option<u64> {
    if tx.len() >= 9 && tx[0] == 0 {
        tx_id(tx)
    } else {
        None
    }
}

/// The identifiers of the sample transactions in `txs`, in the order of the list.
pub open spec fn sample_ids(txs: Seq<Seq<u8>>) -> Seq<u64>
    decreases txs.len(),
{
    if txs.len() == 0 {
        Seq::empty()
    } else {
        match sample_id(txs.last()) {
            Some(id) => sample_ids(txs.drop_last()).push(id),
            None => sample_ids(txs.drop_last()),
        }
    }
}

/// How many bytes the transactions in `txs` have together.
pub open spec fn total_size(txs: Seq<Seq<u8>>) -> nat
    decreases txs.len(),
{
    if txs.len() == 0 {
        0
    } else {
        total_size(txs.drop_last()) + txs.last().len()
    }
}

/// A transaction has an identifier from nine bytes on, and writes state `0` where it has no tenth
/// byte. A standard transaction has ten bytes or more, and its first one is `1`.
pub proof fn lemma_layout(tx: Seq<u8>)
    ensures
        id_and_key(tx) is Some <==> tx.len() >= 9,
        tx.len() == 9 ==> (id_and_key(tx)->0).1 == 0,
        tx.len() >= 10 ==> (id_and_key(tx)->0).1 == tx[9],
        standard_id_and_key(tx) is Some <==> tx.len() >= 10 && tx[0] == 1,
        standard_id_and_key(tx) is Some ==> standard_id_and_key(tx) == id_and_key(tx),
        sample_id(tx) is Some <==> tx.len() >= 9 && tx[0] == 0,
        sample_id(tx) is Some ==> (id_and_key(tx)->0).0 == sample_id(tx)->0,
        tx_id(tx) is Some <==> tx.len() >= 9,
        tx_id(tx) is Some ==> tx_id(tx)->0 == (id_and_key(tx)->0).0,
        standard_id(tx) is Some <==> standard_id_and_key(tx) is Some,
        standard_id(tx) is Some ==> standard_id(tx)->0 == (id_and_key(tx)->0).0,
{
}

/// The identifiers of two lists of transactions are those of the one and those of the other.
pub proof fn lemma_ids_of_both(txs: Seq<Seq<u8>>, more: Seq<Seq<u8>>, tx: Seq<u8>)
    ensures
        tx_ids(txs + more) == tx_ids(txs).union(tx_ids(more)),
        standard_ids(txs + more) == standard_ids(txs).union(standard_ids(more)),
        forall|id: u64| #[trigger] tx_ids(seq![tx]).contains(id) <==> tx_id(tx) == Some(id),
        forall|id: u64| #[trigger]
            standard_ids(seq![tx]).contains(id) <==> standard_id(tx) == Some(id),
{
    let all = txs + more;
    assert forall|id: u64|
        tx_ids(all).contains(id) <==> tx_ids(txs).union(tx_ids(more)).contains(id) by {
        if tx_ids(all).contains(id) {
            let i = choose|i: int| 0 <= i < all.len() && tx_id(#[trigger] all[i]) == Some(id);
            if i < txs.len() {
                assert(txs[i] == all[i]);
            } else {
                assert(more[i - txs.len()] == all[i]);
            }
        }
        if tx_ids(txs).contains(id) {
            let i = choose|i: int| 0 <= i < txs.len() && tx_id(#[trigger] txs[i]) == Some(id);
            assert(all[i] == txs[i]);
        }
        if tx_ids(more).contains(id) {
            let i = choose|i: int| 0 <= i < more.len() && tx_id(#[trigger] more[i]) == Some(id);
            assert(all[i + txs.len()] == more[i]);
        }
    }
    assert forall|id: u64|
        standard_ids(all).contains(id) <==> standard_ids(txs).union(standard_ids(more)).contains(
            id,
        ) by {
        if standard_ids(all).contains(id) {
            let i = choose|i: int| 0 <= i < all.len() && standard_id(#[trigger] all[i]) == Some(id);
            if i < txs.len() {
                assert(txs[i] == all[i]);
            } else {
                assert(more[i - txs.len()] == all[i]);
            }
        }
        if standard_ids(txs).contains(id) {
            let i = choose|i: int| 0 <= i < txs.len() && standard_id(#[trigger] txs[i]) == Some(id);
            assert(all[i] == txs[i]);
        }
        if standard_ids(more).contains(id) {
            let i = choose|i: int| 0 <= i < more.len() && standard_id(#[trigger] more[i]) == Some(id);
            assert(all[i + txs.len()] == more[i]);
        }
    }
    assert(tx_ids(all) =~= tx_ids(txs).union(tx_ids(more)));
    assert(standard_ids(all) =~= standard_ids(txs).union(standard_ids(more)));
    assert(seq![tx][0] == tx);
}

/// The sample transactions of two lists are those of the one followed by those of the other, and
/// the bytes of both add up.
pub proof fn lemma_lists_add_up(txs: Seq<Seq<u8>>, more: Seq<Seq<u8>>, tx: Seq<u8>)
    ensures
        sample_ids(txs + more) == sample_ids(txs) + sample_ids(more),
        sample_ids(seq![tx]) == if tx.len() >= 9 && tx[0] == 0 {
            seq![(id_and_key(tx)->0).0]
        } else {
            Seq::empty()
        },
        total_size(txs + more) == total_size(txs) + total_size(more),
        total_size(seq![tx]) == tx.len(),
    decreases more.len(),
{
    reveal_with_fuel(sample_ids, 2);
    reveal_with_fuel(total_size, 2);
    assert(seq![tx].drop_last() =~= Seq::empty());
    assert(sample_ids(seq![tx]) =~= if tx.len() >= 9 && tx[0] == 0 {
        seq![(id_and_key(tx)->0).0]
    } else {
        Seq::empty()
    });
    if more.len() == 0 {
        assert(txs + more =~= txs);
        assert(sample_ids(txs) + sample_ids(more) =~= sample_ids(txs));
    } else {
        lemma_lists_add_up(txs, more.drop_last(), tx);
        assert((txs + more).drop_last() =~= txs + more.drop_last());
        assert(sample_ids(txs + more) =~= sample_ids(txs) + sample_ids(more));
    }
}

/// The first transactions have no more bytes than all of them.
proof fn lemma_total_size_prefix(txs: Seq<Seq<u8>>, n: int)
    requires
        0 <= n <= txs.len(),
    ensures
        total_size(txs.take(n)) <= total_size(txs),
    decreases txs.len(),
{
    if n < txs.len() {
        lemma_total_size_prefix(txs.drop_last(), n);
        assert(txs.drop_last().take(n) =~= txs.take(n));
    } else {
        assert(txs.take(n) =~= txs);
    }
}

/// Lists the identifiers of the sample transactions.
pub fn sample_transaction_ids(txs: &[Transaction]) -> (ids: Vec<u64>)
    ensures
        ids@ == sample_ids(txs@.map_values(|tx: Transaction| tx@)),
{
    let ghost all = txs@.map_values(|tx: Transaction| tx@);
    let mut ids: Vec<u64> = Vec::new();
    for i in 0..txs.len()
        invariant
            all == txs@.map_values(|tx: Transaction| tx@),
            ids@ == sample_ids(all.take(i as int)),
    {
        proof {
            assert(all.take(i + 1).drop_last() =~= all.take(i as int));
            assert(all.take(i + 1).last() == txs@[i as int]@);
        }
        let tx = &txs[i];
        if tx.len() >= 9 && tx[0] == 0u8 {
            if let Some((id, _)) = parse_transaction_id_and_state_key(tx) {
                ids.push(id);
            }
        }
    }
    assert(all.take(txs@.len() as int) =~= all);
    ids
}

/// Counts the bytes of the transactions.
pub fn payload_size(txs: &[Transaction]) -> (size: usize)
    requires
        total_size(txs@.map_values(|tx: Transaction| tx@)) <= usize::MAX,
    ensures
        size == total_size(txs@.map_values(|tx: Transaction| tx@)),
{
    let ghost all = txs@.map_values(|tx: Transaction| tx@);
    let mut size: usize = 0;
    for i in 0..txs.len()
        invariant
            all == txs@.map_values(|tx: Transaction| tx@),
            total_size(all) <= usize::MAX,
            size == total_size(all.take(i as int)),
    {
        proof {
            assert(all.take(i + 1).drop_last() =~= all.take(i as int));
            assert(all.take(i + 1).last() == txs@[i as int]@);
            lemma_total_size_prefix(all, i + 1);
        }
        size += txs[i].len();
    }
    assert(all.take(txs@.len() as int) =~= all);
    size
}

} // verus!
