//! Adding up the stake behind transactions and behind pairs of them.

use std::collections::{BTreeMap, BTreeSet};
use vstd::prelude::*;
use crate::batch::Stake;
use crate::ordered::{list_ids, list_pairs};

verus! {

/// The sum of the stakes.
pub open spec fn stake_sum(stakes: Seq<Stake>) -> nat
    decreases stakes.len(),
{
    if stakes.len() == 0 {
        0
    } else {
        stake_sum(stakes.drop_last()) + stakes.last() as nat
    }
}

/// The stake of the voters that vote for `x`; voter `i` has stake `stakes[i]` and
/// votes for the members of `votes[i]`.
pub open spec fn tally<A>(stakes: Seq<Stake>, votes: Seq<Set<A>>, x: A) -> nat
    decreases stakes.len(),
{
    if stakes.len() == 0 {
        0
    } else {
        tally(stakes.drop_last(), votes.drop_last(), x) + (if votes.last().contains(x) {
            stakes.last() as nat
        } else {
            0
        })
    }
}

/// The contents of a list of sets.
pub open spec fn set_views<A>(sets: Seq<BTreeSet<A>>) -> Seq<Set<A>> {
    sets.map_values(|set: BTreeSet<A>| set@)
}

/// The count of `x`, `0` where nothing is counted.
pub open spec fn count_of<A>(counts: Map<A, u64>, x: A) -> nat {
    if counts.contains_key(x) {
        counts[x] as nat
    } else {
        0
    }
}

/// No more can be tallied than there is.
pub proof fn lemma_tally_bound<A>(stakes: Seq<Stake>, votes: Seq<Set<A>>, x: A)
    requires
        stakes.len() == votes.len(),
    ensures
        tally(stakes, votes, x) <= stake_sum(stakes),
    decreases stakes.len(),
{
    if stakes.len() > 0 {
        lemma_tally_bound(stakes.drop_last(), votes.drop_last(), x);
    }
}

/// A prefix of the stakes sums up to no more than all of them.
pub proof fn lemma_stake_prefix(stakes: Seq<Stake>, n: int)
    requires
        0 <= n <= stakes.len(),
    ensures
        stake_sum(stakes.take(n)) <= stake_sum(stakes),
    decreases stakes.len() - n,
{
    if n < stakes.len() {
        lemma_stake_prefix(stakes, n + 1);
        assert(stakes.take(n + 1).drop_last() =~= stakes.take(n));
    } else {
        assert(stakes.take(n) =~= stakes);
    }
}

/// What has a positive tally has a vote.
pub proof fn lemma_tally_positive<A>(stakes: Seq<Stake>, votes: Seq<Set<A>>, x: A)
    requires
        stakes.len() == votes.len(),
        tally(stakes, votes, x) > 0,
    ensures
        exists|i: int| 0 <= i < votes.len() && (#[trigger] votes[i]).contains(x),
    decreases stakes.len(),
{
    if votes.last().contains(x) {
        assert(votes[votes.len() - 1].contains(x));
    } else {
        lemma_tally_positive(stakes.drop_last(), votes.drop_last(), x);
        let fewer = votes.drop_last();
        let i = choose|i: int| 0 <= i < fewer.len() && (#[trigger] fewer[i]).contains(x);
        assert(votes[i].contains(x));
    }
}

/// The stakes of two groups of voters add up, and so do their votes. A single voter counts with its
/// whole stake for what it votes for, and not at all for anything else.
pub proof fn lemma_tally_adds_up<A>(
    stakes: Seq<Stake>,
    votes: Seq<Set<A>>,
    more_stakes: Seq<Stake>,
    more_votes: Seq<Set<A>>,
    x: A,
)
    requires
        stakes.len() == votes.len(),
        more_stakes.len() == more_votes.len(),
    ensures
        tally(stakes + more_stakes, votes + more_votes, x) == tally(stakes, votes, x) + tally(
            more_stakes,
            more_votes,
            x,
        ),
        stake_sum(stakes + more_stakes) == stake_sum(stakes) + stake_sum(more_stakes),
        stakes.len() == 1 ==> stake_sum(stakes) == stakes[0],
        stakes.len() == 1 && votes[0].contains(x) ==> tally(stakes, votes, x) == stakes[0],
        stakes.len() == 1 && !votes[0].contains(x) ==> tally(stakes, votes, x) == 0,
    decreases more_stakes.len(),
{
    reveal_with_fuel(tally, 2);
    reveal_with_fuel(stake_sum, 2);
    if more_stakes.len() == 0 {
        assert(stakes + more_stakes =~= stakes);
        assert(votes + more_votes =~= votes);
    } else {
        lemma_tally_adds_up(stakes, votes, more_stakes.drop_last(), more_votes.drop_last(), x);
        assert((stakes + more_stakes).drop_last() =~= stakes + more_stakes.drop_last());
        assert((votes + more_votes).drop_last() =~= votes + more_votes.drop_last());
    }
}

/// Tallies the votes for identifiers.
pub(crate) fn tally_ids(stakes: &Vec<Stake>, votes: &Vec<BTreeSet<u64>>) -> (counts: BTreeMap<u64, u64>)
    requires
        stakes@.len() == votes@.len(),
        stake_sum(stakes@) <= u64::MAX,
    ensures
        forall|x: u64| #[trigger]
            count_of(counts@, x) == tally(stakes@, set_views(votes@), x),
{
    let mut counts: BTreeMap<u64, u64> = BTreeMap::new();
    let ghost all = set_views(votes@);
    for i in 0..stakes.len()
        invariant
            stakes@.len() == votes@.len(),
            stake_sum(stakes@) <= u64::MAX,
            all == set_views(votes@),
            forall|x: u64| #[trigger]
                count_of(counts@, x) == tally(stakes@.take(i as int), all.take(i as int), x),
    {
        let stake = stakes[i];
        let voted = list_ids(&votes[i]);
        let ghost before = counts@;
        proof {
            assert(stakes@.take(i + 1).drop_last() =~= stakes@.take(i as int));
            assert(all.take(i + 1).drop_last() =~= all.take(i as int));
            lemma_stake_prefix(stakes@, i + 1);
        }
        for j in 0..voted.len()
            invariant
                i < stakes@.len(),
                stake == stakes@[i as int],
                stakes@.len() == votes@.len(),
                all == set_views(votes@),
                crate::ordered::ascending(voted@),
                stake_sum(stakes@.take(i as int)) + stake <= u64::MAX,
                forall|x: u64| #[trigger]
                    count_of(before, x) == tally(stakes@.take(i as int), all.take(i as int), x),
                forall|x: u64| #[trigger]
                    count_of(counts@, x) == count_of(before, x) + (if voted@.take(
                        j as int,
                    ).contains(x) {
                        stake as nat
                    } else {
                        0
                    }),
        {
            let x = voted[j];
            let ghost seen = voted@.take(j as int);
            let ghost at = counts@;
            proof {
                crate::ordered::lemma_push_contains(seen, x);
                assert(voted@.take(j + 1) =~= seen.push(x));
                assert(!seen.contains(x)) by {
                    if seen.contains(x) {
                        let k = choose|k: int| 0 <= k < seen.len() && seen[k] == x;
                        assert(voted@[k] < voted@[j as int]);
                    }
                }
                lemma_tally_bound(stakes@.take(i as int), all.take(i as int), x);
                assert(count_of(at, x) == count_of(before, x));
            }
            let count = match counts.get(&x) {
                Some(count) => *count,
                None => 0,
            };
            counts.insert(x, count + stake as u64);
            assert forall|y: u64| #[trigger] count_of(counts@, y) == count_of(before, y) + (
            if seen.push(x).contains(y) {
                stake as nat
            } else {
                0
            }) by {
                assert(y != x ==> count_of(counts@, y) == count_of(at, y));
            }
        }
        assert(voted@.take(voted@.len() as int) =~= voted@);
        assert forall|x: u64| #[trigger] count_of(counts@, x) == tally(
            stakes@.take(i + 1),
            all.take(i + 1),
            x,
        ) by {
            assert(voted@.contains(x) <==> voted@.to_set().contains(x));
            assert(all.take(i + 1).last() == votes@[i as int]@);
            assert(count_of(before, x) == tally(stakes@.take(i as int), all.take(i as int), x));
        }
    }
    assert(stakes@.take(stakes@.len() as int) =~= stakes@);
    assert(all.take(all.len() as int) =~= all);
    counts
}

/// Tallies the votes for pairs.
pub(crate) fn tally_pairs(stakes: &Vec<Stake>, votes: &Vec<BTreeSet<(u64, u64)>>) -> (counts: BTreeMap<
    (u64, u64),
    u64,
>)
    requires
        stakes@.len() == votes@.len(),
        stake_sum(stakes@) <= u64::MAX,
    ensures
        forall|x: (u64, u64)| #[trigger]
            count_of(counts@, x) == tally(stakes@, set_views(votes@), x),
{
    let mut counts: BTreeMap<(u64, u64), u64> = BTreeMap::new();
    let ghost all = set_views(votes@);
    for i in 0..stakes.len()
        invariant
            stakes@.len() == votes@.len(),
            stake_sum(stakes@) <= u64::MAX,
            all == set_views(votes@),
            forall|x: (u64, u64)| #[trigger]
                count_of(counts@, x) == tally(stakes@.take(i as int), all.take(i as int), x),
    {
        let stake = stakes[i];
        let voted = list_pairs(&votes[i]);
        let ghost before = counts@;
        proof {
            assert(stakes@.take(i + 1).drop_last() =~= stakes@.take(i as int));
            assert(all.take(i + 1).drop_last() =~= all.take(i as int));
            lemma_stake_prefix(stakes@, i + 1);
        }
        for j in 0..voted.len()
            invariant
                i < stakes@.len(),
                stake == stakes@[i as int],
                stakes@.len() == votes@.len(),
                all == set_views(votes@),
                crate::ordered::ascending_pairs(voted@),
                stake_sum(stakes@.take(i as int)) + stake <= u64::MAX,
                forall|x: (u64, u64)| #[trigger]
                    count_of(before, x) == tally(stakes@.take(i as int), all.take(i as int), x),
                forall|x: (u64, u64)| #[trigger]
                    count_of(counts@, x) == count_of(before, x) + (if voted@.take(
                        j as int,
                    ).contains(x) {
                        stake as nat
                    } else {
                        0
                    }),
        {
            let x = voted[j];
            let ghost seen = voted@.take(j as int);
            let ghost at = counts@;
            proof {
                crate::ordered::lemma_push_contains(seen, x);
                assert(voted@.take(j + 1) =~= seen.push(x));
                assert(!seen.contains(x)) by {
                    if seen.contains(x) {
                        let k = choose|k: int| 0 <= k < seen.len() && seen[k] == x;
                        assert(crate::ordered::pair_lt(voted@[k], voted@[j as int]));
                    }
                }
                lemma_tally_bound(stakes@.take(i as int), all.take(i as int), x);
                assert(count_of(at, x) == count_of(before, x));
            }
            let count = match counts.get(&x) {
                Some(count) => *count,
                None => 0,
            };
            counts.insert(x, count + stake as u64);
            assert forall|y: (u64, u64)| #[trigger] count_of(counts@, y) == count_of(before, y) + (
            if seen.push(x).contains(y) {
                stake as nat
            } else {
                0
            }) by {
                assert(y != x ==> count_of(counts@, y) == count_of(at, y));
            }
        }
        assert(voted@.take(voted@.len() as int) =~= voted@);
        assert forall|x: (u64, u64)| #[trigger] count_of(counts@, x) == tally(
            stakes@.take(i + 1),
            all.take(i + 1),
            x,
        ) by {
            assert(voted@.contains(x) <==> voted@.to_set().contains(x));
            assert(all.take(i + 1).last() == votes@[i as int]@);
            assert(count_of(before, x) == tally(stakes@.take(i as int), all.take(i as int), x));
        }
    }
    assert(stakes@.take(stakes@.len() as int) =~= stakes@);
    assert(all.take(all.len() as int) =~= all);
    counts
}

} // verus!
