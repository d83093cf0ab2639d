//! Ascending listings of ordered sets.

use std::collections::BTreeSet;
use vstd::prelude::*;
use vstd::std_specs::btree::{increasing_seq, spec_btree_keys_iter};
use vstd::std_specs::cmp::OrdSpec;
use vstd::std_specs::iter::IteratorSpec;

verus! {

/// `s` is strictly increasing.
pub open spec fn ascending(s: Seq<u64>) -> bool {
    forall|i: int, j: int| 0 <= i < j < s.len() ==> s[i] < s[j]
}

/// The lexicographic order on pairs.
pub open spec fn pair_lt(a: (u64, u64), b: (u64, u64)) -> bool {
    a.0 < b.0 || (a.0 == b.0 && a.1 < b.1)
}

/// `s` is strictly increasing in the lexicographic order.
pub open spec fn ascending_pairs(s: Seq<(u64, u64)>) -> bool {
    forall|i: int, j: int| 0 <= i < j < s.len() ==> pair_lt(#[trigger] s[i], #[trigger] s[j])
}

/// Iteration over a set of ids visits each of them once, in ascending order.
pub proof fn lemma_ids_iter(set: &BTreeSet<u64>)
    ensures
        ascending(spec_btree_keys_iter(set).remaining().unref()),
        spec_btree_keys_iter(set).remaining().unref().to_set() == set@,
{
    let s = spec_btree_keys_iter(set).remaining();
    assert(increasing_seq(s));
    assert(vstd::laws_cmp::obeys_cmp::<&u64>());
    assert forall|i: int, j: int| 0 <= i < j < s.len() implies s.unref()[i] < s.unref()[j] by {
        assert(OrdSpec::cmp_spec(&s[i], &s[j]) is Less);
    }
}

/// Iteration over a set of pairs visits each of them once, in ascending order.
pub proof fn lemma_pairs_iter(set: &BTreeSet<(u64, u64)>)
    ensures
        ascending_pairs(spec_btree_keys_iter(set).remaining().unref()),
        spec_btree_keys_iter(set).remaining().unref().to_set() == set@,
{
    let s = spec_btree_keys_iter(set).remaining();
    assert(increasing_seq(s));
    assert(vstd::laws_cmp::obeys_cmp::<&(u64, u64)>());
    assert forall|i: int, j: int| 0 <= i < j < s.len() implies pair_lt(
        #[trigger] s.unref()[i],
        #[trigger] s.unref()[j],
    ) by {
        assert(OrdSpec::cmp_spec(&s[i], &s[j]) is Less);
    }
}

/// The members of `set` in ascending order.
pub fn list_ids(set: &BTreeSet<u64>) -> (list: Vec<u64>)
    ensures
        ascending(list@),
        list@.to_set() == set@,
{
    let mut list: Vec<u64> = Vec::new();
    proof {
        lemma_ids_iter(set);
    }
    let ghost all = spec_btree_keys_iter(set).remaining().unref();
    for x in it: set.iter()
        invariant
            all == it.seq().unref(),
            list@ == all.take(it.index()),
    {
        list.push(*x);
    }
    assert(all.take(all.len() as int) == all);
    list
}

/// The members of `set` in ascending order.
pub fn list_pairs(set: &BTreeSet<(u64, u64)>) -> (list: Vec<(u64, u64)>)
    ensures
        ascending_pairs(list@),
        list@.to_set() == set@,
{
    let mut list: Vec<(u64, u64)> = Vec::new();
    proof {
        lemma_pairs_iter(set);
    }
    let ghost all = spec_btree_keys_iter(set).remaining().unref();
    for x in it: set.iter()
        invariant
            all == it.seq().unref(),
            list@ == all.take(it.index()),
    {
        list.push(*x);
    }
    assert(all.take(all.len() as int) == all);
    list
}

/// The set of the members of `list`.
pub fn set_of_ids(list: &Vec<u64>) -> (set: BTreeSet<u64>)
    ensures
        set@ == list@.to_set(),
{
    let mut set: BTreeSet<u64> = BTreeSet::new();
    for i in 0..list.len()
        invariant
            set@ == list@.take(i as int).to_set(),
    {
        let ghost seen = list@.take(i as int);
        proof {
            assert(list@.take(i + 1) =~= seen.push(list@[i as int]));
            seen.lemma_push_to_set_commute(list@[i as int]);
        }
        set.insert(list[i]);
    }
    assert(list@.take(list@.len() as int) =~= list@);
    set
}

/// The set of the members of `list`.
pub fn set_of_pairs(list: &Vec<(u64, u64)>) -> (set: BTreeSet<(u64, u64)>)
    ensures
        set@ == list@.to_set(),
{
    let mut set: BTreeSet<(u64, u64)> = BTreeSet::new();
    for i in 0..list.len()
        invariant
            set@ == list@.take(i as int).to_set(),
    {
        let ghost seen = list@.take(i as int);
        proof {
            assert(list@.take(i + 1) =~= seen.push(list@[i as int]));
            seen.lemma_push_to_set_commute(list@[i as int]);
        }
        set.insert(list[i]);
    }
    assert(list@.take(list@.len() as int) =~= list@);
    set
}

/// Membership after a push.
pub proof fn lemma_push_contains<A>(s: Seq<A>, a: A)
    ensures
        forall|x: A| #[trigger] s.push(a).contains(x) <==> s.contains(x) || x == a,
{
    assert forall|x: A| #[trigger] s.push(a).contains(x) <==> s.contains(x) || x == a by {
        if s.contains(x) {
            let k = choose|k: int| 0 <= k < s.len() && s[k] == x;
            assert(s.push(a)[k] == x);
        }
        if x == a {
            assert(s.push(a)[s.len() as int] == a);
        }
        if s.push(a).contains(x) {
            let k = choose|k: int| 0 <= k < s.push(a).len() && s.push(a)[k] == x;
            if k < s.len() {
                assert(s[k] == x);
            }
        }
    }
}

/// The least member of `set`.
pub fn least_id(set: &BTreeSet<u64>) -> (least: Option<u64>)
    ensures
        match least {
            Some(x) => set@.contains(x) && forall|y: u64| set@.contains(y) ==> x <= y,
            None => set@ == Set::<u64>::empty(),
        },
{
    proof {
        lemma_ids_iter(set);
    }
    let ghost all = spec_btree_keys_iter(set).remaining().unref();
    for x in it: set.iter()
        invariant
            all == it.seq().unref(),
            ascending(all),
            all.to_set() == set@,
            it.index() == 0,
    {
        proof {
            assert(all[0] == *x);
            assert(all.to_set().contains(all[0]));
            assert forall|y: u64| set@.contains(y) implies *x <= y by {
                assert(all.to_set().contains(y));
                let k = choose|k: int| 0 <= k < all.len() && all[k] == y;
            }
        }
        return Some(*x);
    }
    assert(all.len() == 0);
    assert(set@ =~= Set::<u64>::empty());
    None
}

/// A set that is held in memory is finite.
pub proof fn lemma_ids_finite(set: &BTreeSet<u64>)
    ensures
        set@.finite(),
{
    broadcast use vstd::seq_lib::seq_to_set_is_finite;
    lemma_ids_iter(set);
}

/// Every finite set of identifiers can be listed in ascending order.
pub proof fn lemma_ascending_exists(set: Set<u64>) -> (list: Seq<u64>)
    requires
        set.finite(),
    ensures
        ascending(list),
        list.to_set() == set,
    decreases set.len(),
{
    if set.len() == 0 {
        assert(set =~= Set::empty());
        let list = Seq::<u64>::empty();
        assert(list.to_set() =~= set);
        list
    } else {
        let greatest = lemma_greatest_id(set, set.choose());
        let fewer = set.remove(greatest);
        let before = lemma_ascending_exists(fewer);
        let list = before.push(greatest);
        assert forall|i: int, j: int| 0 <= i < j < list.len() implies list[i] < list[j] by {
            assert(before.to_set().contains(before[i]));
        }
        before.lemma_push_to_set_commute(greatest);
        assert(list.to_set() =~= set);
        list
    }
}

proof fn lemma_greatest_id(set: Set<u64>, x: u64) -> (greatest: u64)
    requires
        set.contains(x),
    ensures
        set.contains(greatest),
        forall|y: u64| set.contains(y) ==> y <= greatest,
    decreases u64::MAX - x,
{
    if exists|y: u64| set.contains(y) && y > x {
        let y = choose|y: u64| set.contains(y) && y > x;
        lemma_greatest_id(set, y)
    } else {
        x
    }
}

/// An ascending sequence is determined by its members.
pub proof fn lemma_ascending_unique(s: Seq<u64>, t: Seq<u64>)
    requires
        ascending(s),
        ascending(t),
        s.to_set() == t.to_set(),
    ensures
        s == t,
    decreases s.len(),
{
    if s.len() == 0 {
        if t.len() > 0 {
            assert(t.to_set().contains(t[0]));
        }
        assert(s =~= t);
    } else {
        assert(s.to_set().contains(s.last()));
        assert(t.contains(s.last()));
        assert(t.to_set().contains(t.last()));
        assert(s.contains(t.last()));
        let i = choose|i: int| 0 <= i < t.len() && t[i] == s.last();
        let j = choose|j: int| 0 <= j < s.len() && s[j] == t.last();
        assert(s.last() == t.last());
        let s1 = s.drop_last();
        let t1 = t.drop_last();
        assert forall|x: u64| s1.contains(x) <==> s.contains(x) && x != s.last() by {
            if s.contains(x) && x != s.last() {
                let k = choose|k: int| 0 <= k < s.len() && s[k] == x;
                assert(s1[k] == x);
            }
            if s1.contains(x) {
                let k = choose|k: int| 0 <= k < s1.len() && s1[k] == x;
                assert(s[k] == x);
            }
        }
        assert forall|x: u64| t1.contains(x) <==> t.contains(x) && x != t.last() by {
            if t.contains(x) && x != t.last() {
                let k = choose|k: int| 0 <= k < t.len() && t[k] == x;
                assert(t1[k] == x);
            }
            if t1.contains(x) {
                let k = choose|k: int| 0 <= k < t1.len() && t1[k] == x;
                assert(t[k] == x);
            }
        }
        assert forall|x: u64| s1.to_set().contains(x) <==> t1.to_set().contains(x) by {
            assert(s.to_set().contains(x) <==> t.to_set().contains(x));
            assert(s.to_set().contains(x) <==> s.contains(x));
            assert(t.to_set().contains(x) <==> t.contains(x));
            assert(s1.contains(x) <==> s.contains(x) && x != s.last());
            assert(t1.contains(x) <==> t.contains(x) && x != t.last());
        }
        assert(s1.to_set() =~= t1.to_set());
        lemma_ascending_unique(s1, t1);
        assert(s =~= s1.push(s.last()));
        assert(t =~= t1.push(t.last()));
    }
}

/// An ascending sequence of pairs is determined by its members.
pub proof fn lemma_ascending_pairs_unique(s: Seq<(u64, u64)>, t: Seq<(u64, u64)>)
    requires
        ascending_pairs(s),
        ascending_pairs(t),
        s.to_set() == t.to_set(),
    ensures
        s == t,
    decreases s.len(),
{
    if s.len() == 0 {
        if t.len() > 0 {
            assert(t.to_set().contains(t[0]));
        }
        assert(s =~= t);
    } else {
        assert(s.to_set().contains(s.last()));
        assert(t.contains(s.last()));
        assert(t.to_set().contains(t.last()));
        assert(s.contains(t.last()));
        let i = choose|i: int| 0 <= i < t.len() && t[i] == s.last();
        let j = choose|j: int| 0 <= j < s.len() && s[j] == t.last();
        assert(s.last() == t.last()) by {
            if i < t.len() - 1 {
                assert(pair_lt(t[i], t[t.len() - 1]));
            }
            if j < s.len() - 1 {
                assert(pair_lt(s[j], s[s.len() - 1]));
            }
        }
        let s1 = s.drop_last();
        let t1 = t.drop_last();
        assert(s =~= s1.push(s.last()));
        assert(t =~= t1.push(t.last()));
        lemma_push_contains(s1, s.last());
        lemma_push_contains(t1, t.last());
        assert(ascending_pairs(s1)) by {
            assert forall|a: int, b: int| 0 <= a < b < s1.len() implies pair_lt(
                #[trigger] s1[a],
                #[trigger] s1[b],
            ) by {
                assert(pair_lt(s[a], s[b]));
            }
        }
        assert(ascending_pairs(t1)) by {
            assert forall|a: int, b: int| 0 <= a < b < t1.len() implies pair_lt(
                #[trigger] t1[a],
                #[trigger] t1[b],
            ) by {
                assert(pair_lt(t[a], t[b]));
            }
        }
        assert(!s1.contains(s.last())) by {
            if s1.contains(s.last()) {
                let k = choose|k: int| 0 <= k < s1.len() && s1[k] == s.last();
                assert(pair_lt(s[k], s[s.len() - 1]));
            }
        }
        assert(!t1.contains(t.last())) by {
            if t1.contains(t.last()) {
                let k = choose|k: int| 0 <= k < t1.len() && t1[k] == t.last();
                assert(pair_lt(t[k], t[t.len() - 1]));
            }
        }
        assert forall|x: (u64, u64)| s1.to_set().contains(x) <==> t1.to_set().contains(x) by {
            assert(s.to_set().contains(x) <==> t.to_set().contains(x));
            assert(s.to_set().contains(x) <==> s.contains(x));
            assert(t.to_set().contains(x) <==> t.contains(x));
            assert(s1.push(s.last()).contains(x) <==> s1.contains(x) || x == s.last());
            assert(t1.push(t.last()).contains(x) <==> t1.contains(x) || x == t.last());
        }
        assert(s1.to_set() =~= t1.to_set());
        lemma_ascending_pairs_unique(s1, t1);
    }
}

} // verus!
