//! Batches of transactions with their local order, and the identities that
//! travel with them.

use vstd::prelude::*;
use crate::transaction::Transaction;

verus! {

/// The voting power of an authority.
pub type Stake = u32;

/// The identifier of a worker within its authority.
pub type WorkerId = u32;

/// The public key of an authority.
#[derive(Clone, Copy, Eq, Debug, Default, PartialOrd, Ord)]
pub struct PublicKey(pub [u8; 32]);

/// The digest of a serialized batch.
#[derive(Clone, Copy, Eq, Debug, Default, PartialOrd, Ord)]
pub struct Digest(pub [u8; 32]);

/// Whether two arrays hold the same bytes.
fn same_bytes(a: &[u8; 32], b: &[u8; 32]) -> (same: bool)
    ensures
        same <==> a == b,
{
    let mut i: usize = 0;
    while i < 32
        invariant
            i <= 32,
            forall|j: int| 0 <= j < i ==> a@[j] == b@[j],
        decreases 32 - i,
    {
        if a[i] != b[i] {
            return false;
        }
        i += 1;
    }
    assert(a@ =~= b@);
    assert(*a =~= *b);
    true
}

impl PartialEq for PublicKey {
    fn eq(&self, other: &Self) -> (same: bool) {
        same_bytes(&self.0, &other.0)
    }
}

impl vstd::std_specs::cmp::PartialEqSpecImpl for PublicKey {
    open spec fn obeys_eq_spec() -> bool {
        true
    }

    open spec fn eq_spec(&self, other: &Self) -> bool {
        self == other
    }
}

impl PartialEq for Digest {
    fn eq(&self, other: &Self) -> (same: bool) {
        same_bytes(&self.0, &other.0)
    }
}

impl vstd::std_specs::cmp::PartialEqSpecImpl for Digest {
    open spec fn obeys_eq_spec() -> bool {
        true
    }

    open spec fn eq_spec(&self, other: &Self) -> bool {
        self == other
    }
}

/// Transactions together with the order constraints between them.
#[derive(Debug, PartialEq, Eq, Default)]
pub struct Batch {
    pub author: PublicKey,
    pub sequence: u64,
    pub transactions: Vec<Transaction>,
    /// Pairs of an earlier and a later conflicting transaction.
    pub edges: Vec<(u64, u64)>,
    /// Pairs of conflicting transactions whose order is still open.
    pub missing_edges: Vec<(u64, u64)>,
}

/// The contents of a batch.
pub struct BatchView {
    pub author: PublicKey,
    pub sequence: u64,
    pub transactions: Seq<Seq<u8>>,
    pub edges: Seq<(u64, u64)>,
    pub missing_edges: Seq<(u64, u64)>,
}

/// The contents of a list of transactions.
pub open spec fn payloads(transactions: Seq<Transaction>) -> Seq<Seq<u8>> {
    transactions.map_values(|tx: Transaction| tx@)
}

/// The contents of a list of batches.
pub open spec fn batch_views(batches: Seq<Batch>) -> Seq<BatchView> {
    batches.map_values(|batch: Batch| batch@)
}

impl View for Batch {
    type V = BatchView;

    open spec fn view(&self) -> BatchView {
        BatchView {
            author: self.author,
            sequence: self.sequence,
            transactions: payloads(self.transactions@),
            edges: self.edges@,
            missing_edges: self.missing_edges@,
        }
    }
}

impl Clone for Batch {
    fn clone(&self) -> (copy: Self)
        ensures
            copy@ == self@,
    {
        let mut transactions: Vec<Transaction> = Vec::new();
        for i in 0..self.transactions.len()
            invariant
                payloads(transactions@) == payloads(self.transactions@).take(i as int),
        {
            let tx = copy_bytes(&self.transactions[i]);
            let ghost before = transactions@;
            transactions.push(tx);
            assert(payloads(transactions@) =~= payloads(before).push(tx@));
            assert(payloads(self.transactions@).take(i + 1) =~= payloads(self.transactions@).take(
                i as int,
            ).push(self.transactions@[i as int]@));
        }
        assert(payloads(self.transactions@).take(self.transactions@.len() as int) =~= payloads(
            self.transactions@,
        ));
        Batch {
            author: self.author,
            sequence: self.sequence,
            transactions,
            edges: copy_pairs(&self.edges),
            missing_edges: copy_pairs(&self.missing_edges),
        }
    }
}

/// A copy of some bytes.
pub fn copy_bytes(bytes: &[u8]) -> (copy: Vec<u8>)
    ensures
        copy@ == bytes@,
{
    let mut copy: Vec<u8> = Vec::with_capacity(bytes.len());
    for i in 0..bytes.len()
        invariant
            copy@ == bytes@.take(i as int),
    {
        copy.push(bytes[i]);
        assert(bytes@.take(i + 1) =~= bytes@.take(i as int).push(bytes@[i as int]));
    }
    assert(bytes@.take(bytes@.len() as int) =~= bytes@);
    copy
}

/// A copy of a list of pairs.
pub fn copy_pairs(pairs: &Vec<(u64, u64)>) -> (copy: Vec<(u64, u64)>)
    ensures
        copy@ == pairs@,
{
    let mut copy: Vec<(u64, u64)> = Vec::with_capacity(pairs.len());
    for i in 0..pairs.len()
        invariant
            copy@ == pairs@.take(i as int),
    {
        copy.push(pairs[i]);
        assert(pairs@.take(i + 1) =~= pairs@.take(i as int).push(pairs@[i as int]));
    }
    assert(pairs@.take(pairs@.len() as int) =~= pairs@);
    copy
}

/// The lexicographic order on byte strings.
pub open spec fn bytes_lt(s: Seq<u8>, t: Seq<u8>) -> bool {
    exists|k: int| #[trigger] differs_at(s, t, k)
}

/// `s` and `t` agree up to position `k`, where `s` ends or has the smaller byte.
pub open spec fn differs_at(s: Seq<u8>, t: Seq<u8>, k: int) -> bool {
    &&& 0 <= k <= s.len()
    &&& k < t.len()
    &&& forall|i: int| 0 <= i < k ==> s[i] == t[i]
    &&& k == s.len() || s[k] < t[k]
}

/// Of two byte strings, at most one is the smaller; where neither is, they are equal.
pub proof fn lemma_bytes_lt_total(s: Seq<u8>, t: Seq<u8>)
    ensures
        !(bytes_lt(s, t) && bytes_lt(t, s)),
        !bytes_lt(s, t) && !bytes_lt(t, s) ==> s == t,
        !bytes_lt(s, s),
{
    if bytes_lt(s, s) {
        let k = choose|k: int| #[trigger] differs_at(s, s, k);
    }
    if bytes_lt(s, t) && bytes_lt(t, s) {
        let k = choose|k: int| #[trigger] differs_at(s, t, k);
        let l = choose|l: int| #[trigger] differs_at(t, s, l);
        if k < l {
            assert(t[k] == s[k]);
        } else if l < k {
            assert(s[l] == t[l]);
        }
    }
    if !bytes_lt(s, t) && !bytes_lt(t, s) {
        lemma_common_prefix(s, t, 0);
    }
}

proof fn lemma_common_prefix(s: Seq<u8>, t: Seq<u8>, k: int)
    requires
        0 <= k <= s.len(),
        k <= t.len(),
        forall|i: int| 0 <= i < k ==> s[i] == t[i],
        !bytes_lt(s, t),
        !bytes_lt(t, s),
    ensures
        s == t,
    decreases s.len() - k,
{
    assert(!differs_at(s, t, k));
    assert(!differs_at(t, s, k));
    if k < s.len() && k < t.len() {
        lemma_common_prefix(s, t, k + 1);
    } else {
        assert(s =~= t);
    }
}

/// The order on byte strings is transitive.
pub proof fn lemma_bytes_lt_trans(s: Seq<u8>, t: Seq<u8>, u: Seq<u8>)
    requires
        bytes_lt(s, t),
        bytes_lt(t, u),
    ensures
        bytes_lt(s, u),
{
    let k = choose|k: int| #[trigger] differs_at(s, t, k);
    let l = choose|l: int| #[trigger] differs_at(t, u, l);
    let m = if k <= l {
        k
    } else {
        l
    };
    assert forall|i: int| 0 <= i < m implies s[i] == u[i] by {
        assert(s[i] == t[i] && t[i] == u[i]);
    }
    if k < l {
        assert(t[k] == u[k]);
    } else if l < k {
        assert(s[l] == t[l]);
    }
    assert(differs_at(s, u, m));
}

/// The first byte that differs decides, the smaller one coming first; where there is none, the
/// shorter string comes first.
pub proof fn lemma_first_difference_decides(s: Seq<u8>, a: u8, b: u8, t: Seq<u8>, u: Seq<u8>)
    ensures
        bytes_lt(s + seq![a] + t, s + seq![b] + u) <==> a < b || (a == b && bytes_lt(
            s + seq![a] + t,
            s + seq![a] + u,
        )),
        bytes_lt(s, s + seq![a] + t),
        !bytes_lt(s + seq![a] + t, s),
{
    let x = s + seq![a] + t;
    let y = s + seq![b] + u;
    let k = s.len() as int;
    assert(x[k] == a && y[k] == b);
    assert forall|i: int| 0 <= i < k implies x[i] == y[i] && x[i] == s[i] by {}
    lemma_bytes_lt_total(x, y);
    lemma_bytes_lt_total(s, x);
    if a < b {
        assert(differs_at(x, y, k));
    } else if b < a {
        assert(differs_at(y, x, k));
    }
    assert(differs_at(s, x, k));
}

/// Whether `a` comes before `b` in the lexicographic order.
pub fn bytes_less(a: &[u8], b: &[u8]) -> (less: bool)
    ensures
        less <==> bytes_lt(a@, b@),
{
    let mut k: usize = 0;
    while k < a.len() && k < b.len()
        invariant
            k <= a@.len(),
            k <= b@.len(),
            forall|i: int| 0 <= i < k ==> a@[i] == b@[i],
        decreases a@.len() - k,
    {
        if a[k] < b[k] {
            assert(differs_at(a@, b@, k as int));
            return true;
        }
        if b[k] < a[k] {
            proof {
                assert(differs_at(b@, a@, k as int));
                lemma_bytes_lt_total(a@, b@);
            }
            return false;
        }
        k += 1;
    }
    if k < b.len() {
        assert(differs_at(a@, b@, k as int));
        true
    } else {
        proof {
            if bytes_lt(a@, b@) {
                let l = choose|l: int| #[trigger] differs_at(a@, b@, l);
                assert(a@[l] == b@[l]);
            }
        }
        false
    }
}

impl PublicKey {
    /// Whether `self` comes before `other` in the order of keys.
    pub fn less(&self, other: &PublicKey) -> (less: bool)
        ensures
            less <==> bytes_lt(self.0@, other.0@),
    {
        bytes_less(self.0.as_slice(), other.0.as_slice())
    }
}

} // verus!
