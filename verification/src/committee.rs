//! The committee of authorities and its stake thresholds.

use vstd::prelude::*;
use crate::batch::{PublicKey, Stake};

verus! {

/// The stake of all members.
pub open spec fn total_stake(members: Seq<(PublicKey, Stake)>) -> nat
    decreases members.len(),
{
    if members.len() == 0 {
        0
    } else {
        total_stake(members.drop_last()) + members.last().1 as nat
    }
}

/// The stake of the member `name`, and `0` of anyone else.
pub open spec fn stake_of(members: Seq<(PublicKey, Stake)>, name: PublicKey) -> Stake
    decreases members.len(),
{
    if members.len() == 0 {
        0
    } else if members.last().0 == name {
        members.last().1
    } else {
        stake_of(members.drop_last(), name)
    }
}

/// The stake of all of `names`.
pub open spec fn stake_of_all(members: Seq<(PublicKey, Stake)>, names: Seq<PublicKey>) -> nat
    decreases names.len(),
{
    if names.len() == 0 {
        0
    } else {
        stake_of_all(members, names.drop_last()) + stake_of(members, names.last()) as nat
    }
}

/// No two members have the same name.
pub open spec fn distinct_members(members: Seq<(PublicKey, Stake)>) -> bool {
    forall|i: int, j: int|
        0 <= i < j < members.len() ==> (#[trigger] members[i]).0 != (#[trigger] members[j]).0
}

/// `n - f`, where `n` is the stake of all members and `f` the stake that may be faulty.
pub open spec fn quorum(members: Seq<(PublicKey, Stake)>) -> nat {
    2 * total_stake(members) / 3 + 1
}

/// Together, different authorities have no more stake than the committee.
pub proof fn lemma_stake_bound(members: Seq<(PublicKey, Stake)>, names: Seq<PublicKey>)
    requires
        names.no_duplicates(),
    ensures
        stake_of_all(members, names) <= total_stake(members),
    decreases members.len(),
{
    if members.len() == 0 {
        lemma_no_members(members, names);
    } else {
        lemma_stake_bound(members.drop_last(), names);
        lemma_last_member(members, names);
    }
}

proof fn lemma_no_members(members: Seq<(PublicKey, Stake)>, names: Seq<PublicKey>)
    requires
        members.len() == 0,
    ensures
        stake_of_all(members, names) == 0,
    decreases names.len(),
{
    if names.len() > 0 {
        lemma_no_members(members, names.drop_last());
    }
}

proof fn lemma_last_member(members: Seq<(PublicKey, Stake)>, names: Seq<PublicKey>)
    requires
        members.len() > 0,
        names.no_duplicates(),
    ensures
        stake_of_all(members, names) <= stake_of_all(members.drop_last(), names) + (
        if names.contains(members.last().0) {
            members.last().1 as nat
        } else {
            0
        }),
    decreases names.len(),
{
    if names.len() > 0 {
        let fewer = names.drop_last();
        assert(fewer.no_duplicates());
        lemma_last_member(members, fewer);
        if fewer.contains(members.last().0) {
            let k = choose|k: int| 0 <= k < fewer.len() && fewer[k] == members.last().0;
            assert(names[k] == members.last().0);
            assert(names[k] != names[names.len() - 1]);
        }
        if names.last() == members.last().0 {
            assert(names.contains(members.last().0));
        }
    }
}

/// The authorities and their stakes.
#[derive(Debug)]
pub struct Committee {
    members: Vec<(PublicKey, Stake)>,
}

impl View for Committee {
    type V = Seq<(PublicKey, Stake)>;

    closed spec fn view(&self) -> Seq<(PublicKey, Stake)> {
        self.members@
    }
}

impl Committee {
    /// Members are distinct, and twice their stake fits a `Stake`.
    pub open spec fn wf(&self) -> bool {
        &&& distinct_members(self@)
        &&& 2 * total_stake(self@) <= Stake::MAX
    }

    /// A committee of the given members. There is none if a member is given twice,
    /// or if twice the stake of all does not fit a `Stake`.
    pub fn new(members: Vec<(PublicKey, Stake)>) -> (committee: Option<Committee>)
        ensures
            committee is Some <==> distinct_members(members@) && 2 * total_stake(members@)
                <= Stake::MAX,
            committee matches Some(c) ==> c@ == members@,
    {
        let mut total: u64 = 0;
        for i in 0..members.len()
            invariant
                distinct_members(members@.take(i as int)),
                total == total_stake(members@.take(i as int)),
                2 * total <= Stake::MAX,
        {
            let ghost seen = members@.take(i as int);
            assert(members@.take(i + 1).drop_last() =~= seen);
            for j in 0..i
                invariant
                    i < members@.len(),
                    forall|k: int| 0 <= k < j ==> (#[trigger] members@[k]).0 != members@[i as int].0,
            {
                if members[j].0 == members[i].0 {
                    assert(members@[j as int].0 == members@[i as int].0);
                    return None;
                }
            }
            total = total + members[i].1 as u64;
            if total > (Stake::MAX / 2) as u64 {
                proof {
                    lemma_total_prefix(members@, i + 1);
                }
                return None;
            }
        }
        assert(members@.take(members@.len() as int) =~= members@);
        Some(Committee { members })
    }

    /// The number of members.
    pub fn size(&self) -> (size: usize)
        ensures
            size == self@.len(),
    {
        self.members.len()
    }

    /// The stake of the member `name`, and `0` of anyone else.
    pub fn stake(&self, name: &PublicKey) -> (stake: Stake)
        ensures
            stake == stake_of(self@, *name),
    {
        let mut i: usize = self.members.len();
        assert(self@.take(i as int) =~= self@);
        while i > 0
            invariant
                i <= self@.len(),
                stake_of(self@, *name) == stake_of(self@.take(i as int), *name),
            decreases i,
        {
            let ghost prefix = self@.take(i as int);
            assert(prefix.drop_last() =~= self@.take(i - 1));
            if self.members[i - 1].0 == *name {
                return self.members[i - 1].1;
            }
            i -= 1;
        }
        0
    }

    /// The stake that any quorum has at least.
    pub fn quorum_threshold(&self) -> (threshold: Stake)
        requires
            self.wf(),
        ensures
            threshold == quorum(self@),
            total_stake(self@) > 0 ==> threshold == total_stake(self@) - (total_stake(self@) - 1)
                / 3,
    {
        let mut total: Stake = 0;
        for i in 0..self.members.len()
            invariant
                self.wf(),
                total == total_stake(self@.take(i as int)),
        {
            proof {
                assert(self@.take(i + 1).drop_last() =~= self@.take(i as int));
                lemma_total_prefix(self@, i + 1);
            }
            total = total + self.members[i].1;
        }
        assert(self@.take(self@.len() as int) =~= self@);
        2 * total / 3 + 1
    }
}

/// The stake of a member is the one that it is listed with, and nobody else has any.
pub proof fn lemma_stake_is_as_listed(members: Seq<(PublicKey, Stake)>, name: PublicKey)
    requires
        distinct_members(members),
    ensures
        forall|i: int|
            0 <= i < members.len() && (#[trigger] members[i]).0 == name ==> stake_of(members, name)
                == members[i].1,
        (forall|i: int| 0 <= i < members.len() ==> (#[trigger] members[i]).0 != name) ==> stake_of(
            members,
            name,
        ) == 0,
    decreases members.len(),
{
    if members.len() > 0 {
        let fewer = members.drop_last();
        let last = members.len() - 1;
        assert forall|i: int, j: int| 0 <= i < j < fewer.len() implies (#[trigger] fewer[i]).0 != (
        #[trigger] fewer[j]).0 by {
            assert(members[i].0 != members[j].0);
        }
        lemma_stake_is_as_listed(fewer, name);
        assert forall|i: int|
            0 <= i < members.len() && (#[trigger] members[i]).0 == name implies stake_of(
            members,
            name,
        ) == members[i].1 by {
            if i < last {
                assert(members[i].0 != members[last].0);
                assert(fewer[i] == members[i]);
            }
        }
        if forall|i: int| 0 <= i < members.len() ==> (#[trigger] members[i]).0 != name {
            assert(members[last].0 != name);
            assert forall|i: int| 0 <= i < fewer.len() implies (#[trigger] fewer[i]).0 != name by {
                assert(fewer[i] == members[i]);
            }
        }
    }
}

/// The stake of a committee is that of its parts together, and that of a single member is its own.
pub proof fn lemma_stake_adds_up(
    members: Seq<(PublicKey, Stake)>,
    more: Seq<(PublicKey, Stake)>,
    name: PublicKey,
    stake: Stake,
)
    ensures
        total_stake(members + more) == total_stake(members) + total_stake(more),
        total_stake(seq![(name, stake)]) == stake,
        total_stake(Seq::empty()) == 0,
    decreases more.len(),
{
    reveal_with_fuel(total_stake, 2);
    assert(seq![(name, stake)].drop_last() =~= Seq::empty());
    if more.len() == 0 {
        assert(members + more =~= members);
    } else {
        lemma_stake_adds_up(members, more.drop_last(), name, stake);
        assert((members + more).drop_last() =~= members + more.drop_last());
    }
}

proof fn lemma_stake_of_all_add(
    members: Seq<(PublicKey, Stake)>,
    names: Seq<PublicKey>,
    more: Seq<PublicKey>,
)
    ensures
        stake_of_all(members, names + more) == stake_of_all(members, names) + stake_of_all(
            members,
            more,
        ),
    decreases more.len(),
{
    if more.len() == 0 {
        assert(names + more =~= names);
    } else {
        lemma_stake_of_all_add(members, names, more.drop_last());
        assert((names + more).drop_last() =~= names + more.drop_last());
    }
}

/// The names that two lists have in common, in the order of the first.
pub open spec fn common_names(names: Seq<PublicKey>, others: Seq<PublicKey>) -> Seq<PublicKey> {
    names.filter(|name: PublicKey| others.contains(name))
}

/// A list of names is split into those that are in another list and those that are not.
proof fn lemma_split_names(
    members: Seq<(PublicKey, Stake)>,
    names: Seq<PublicKey>,
    others: Seq<PublicKey>,
)
    requires
        names.no_duplicates(),
    ensures
        ({
            let common = common_names(names, others);
            let apart = names.filter(|name: PublicKey| !others.contains(name));
            &&& stake_of_all(members, common) + stake_of_all(members, apart) == stake_of_all(
                members,
                names,
            )
            &&& apart.no_duplicates()
            &&& forall|name: PublicKey| #[trigger]
                apart.contains(name) ==> names.contains(name) && !others.contains(name)
        }),
    decreases names.len(),
{
    let is_common = |name: PublicKey| others.contains(name);
    let is_apart = |name: PublicKey| !others.contains(name);
    reveal(Seq::filter);
    if names.len() > 0 {
        let fewer = names.drop_last();
        let last = names.last();
        assert(fewer.no_duplicates());
        lemma_split_names(members, fewer, others);
        let common = common_names(fewer, others);
        let apart = fewer.filter(is_apart);
        assert(names.filter(is_common) =~= if is_common(last) {
            common.push(last)
        } else {
            common
        });
        assert(names.filter(is_apart) =~= if is_apart(last) {
            apart.push(last)
        } else {
            apart
        });
        crate::ordered::lemma_push_contains(apart, last);
        crate::ordered::lemma_push_contains(fewer, last);
        assert(names =~= fewer.push(last));
        assert(common.push(last).drop_last() =~= common);
        assert(apart.push(last).drop_last() =~= apart);
        assert(!fewer.contains(last)) by {
            if fewer.contains(last) {
                let k = choose|k: int| 0 <= k < fewer.len() && fewer[k] == last;
                assert(names[k] == names[names.len() - 1]);
            }
        }
        if is_apart(last) {
            assert(!apart.contains(last));
            assert(apart.push(last).no_duplicates());
        }
    }
}

/// A quorum is `n - f`, where `n` is the stake of all members and `f` the greatest number with
/// `3 * f < n`: it can be had without the faulty ones, and any two quorums have more stake in
/// common than the faulty ones have.
pub proof fn lemma_quorums_intersect(
    members: Seq<(PublicKey, Stake)>,
    names: Seq<PublicKey>,
    others: Seq<PublicKey>,
    faulty: nat,
)
    requires
        3 * faulty < total_stake(members) <= 3 * faulty + 3,
    ensures
        quorum(members) + faulty == total_stake(members),
        2 * quorum(members) > total_stake(members) + faulty,
        names.no_duplicates() && others.no_duplicates() && stake_of_all(members, names) >= quorum(
            members,
        ) && stake_of_all(members, others) >= quorum(members) ==> stake_of_all(
            members,
            common_names(names, others),
        ) > faulty,
{
    if names.no_duplicates() && others.no_duplicates() {
        let apart = names.filter(|name: PublicKey| !others.contains(name));
        lemma_split_names(members, names, others);
        let together = others + apart;
        assert(together.no_duplicates()) by {
            assert forall|i: int, j: int|
                0 <= i < together.len() && 0 <= j < together.len() && i != j implies together[i]
                != together[j] by {
                if i < others.len() && j >= others.len() {
                    assert(others.contains(together[i]));
                    assert(apart.contains(apart[j - others.len()]));
                } else if j < others.len() && i >= others.len() {
                    assert(others.contains(together[j]));
                    assert(apart.contains(apart[i - others.len()]));
                }
            }
        }
        lemma_stake_bound(members, together);
        lemma_stake_of_all_add(members, others, apart);
    }
}

/// Without any stake there is no quorum.
pub proof fn lemma_no_quorum_without_stake(members: Seq<(PublicKey, Stake)>, names: Seq<PublicKey>)
    requires
        total_stake(members) == 0,
        names.no_duplicates(),
    ensures
        stake_of_all(members, names) < quorum(members),
{
    lemma_stake_bound(members, names);
}

/// A prefix of the members has no more stake than all of them.
proof fn lemma_total_prefix(members: Seq<(PublicKey, Stake)>, n: int)
    requires
        0 <= n <= members.len(),
    ensures
        total_stake(members.take(n)) <= total_stake(members),
    decreases members.len() - n,
{
    if n < members.len() {
        lemma_total_prefix(members, n + 1);
        assert(members.take(n + 1).drop_last() =~= members.take(n));
    } else {
        assert(members.take(n) =~= members);
    }
}

} // verus!
