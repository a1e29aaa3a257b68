//! The committee and clan model: authority identities, stakes, clan
//! membership, the leader schedule, and the two quorum predicates.
//!
//! The committee holds its authorities in canonical order: the position of
//! an authority in the list is the bit index used by certificate bitmaps,
//! and the authority's BLS public key sits at the same position of the
//! parallel key list. Stake-weighted thresholds are the quorum threshold
//! `2T/3 + 1` (a supermajority) and the validity threshold `T/3 + 1` (more
//! than a third), both computed over stake, not count.

use crate::types::{PublicKey, Stake};
use vstd::prelude::*;

verus! {

/// One voting member of the committee.
#[derive(Clone, Copy, PartialEq, Eq, Structural, Debug)]
pub struct Authority {
    /// The authority's identity key.
    pub name: PublicKey,
    /// Its voting power.
    pub stake: Stake,
    /// The clan this authority belongs to.
    pub clan_id: u64,
}

/// Sum of the stakes of a sequence of authorities.
pub open spec fn stake_sum(s: Seq<Authority>) -> int
    decreases s.len(),
{
    if s.len() == 0 {
        0
    } else {
        stake_sum(s.drop_last()) + s.last().stake
    }
}

/// Sum of the stakes of the authorities in `s` whose name is in `used`.
pub open spec fn covered_weight(s: Seq<Authority>, used: Seq<PublicKey>) -> int
    decreases s.len(),
{
    if s.len() == 0 {
        0
    } else {
        covered_weight(s.drop_last(), used) + if used.contains(s.last().name) {
            s.last().stake as int
        } else {
            0
        }
    }
}

/// All stakes are non-negative, so any covered subset weighs at most the
/// whole.
pub proof fn lemma_covered_weight_le_total(s: Seq<Authority>, used: Seq<PublicKey>)
    ensures
        0 <= covered_weight(s, used) <= stake_sum(s),
    decreases s.len(),
{
    if s.len() > 0 {
        lemma_covered_weight_le_total(s.drop_last(), used);
    }
}

/// The names of the authorities in `s` are pairwise distinct.
pub open spec fn distinct_names(s: Seq<Authority>) -> bool {
    forall|i: int, j: int| 0 <= i < j < s.len() ==> s[i].name != s[j].name
}

/// No authority in `s` is named `a`.
pub open spec fn absent_name(s: Seq<Authority>, a: PublicKey) -> bool {
    forall|i: int| 0 <= i < s.len() ==> s[i].name != a
}

/// Adding a name that no authority in `s` bears does not change the covered
/// weight.
pub proof fn lemma_covered_weight_absent(s: Seq<Authority>, used: Seq<PublicKey>, a: PublicKey)
    requires
        absent_name(s, a),
    ensures
        covered_weight(s, used.push(a)) == covered_weight(s, used),
    decreases s.len(),
{
    if s.len() > 0 {
        assert(forall|i: int| 0 <= i < s.drop_last().len() ==> s.drop_last()[i] == s[i]);
        lemma_covered_weight_absent(s.drop_last(), used, a);
        assert(s.last().name != a);
        if used.contains(s.last().name) {
            let i = choose|i: int| 0 <= i < used.len() && used[i] == s.last().name;
            assert(used.push(a)[i] == s.last().name);
            assert(used.push(a).contains(s.last().name));
        } else {
            assert(!used.push(a).contains(s.last().name)) by {
                if used.push(a).contains(s.last().name) {
                    let i = choose|i: int|
                        0 <= i < used.push(a).len() && used.push(a)[i] == s.last().name;
                    assert(i < used.len());
                }
            }
        }
    }
}

/// Adding a fresh contributor raises the covered weight by exactly the
/// stake of the one authority that bears its name.
pub proof fn lemma_covered_weight_insert(
    s: Seq<Authority>,
    used: Seq<PublicKey>,
    a: PublicKey,
    k: int,
)
    requires
        distinct_names(s),
        !used.contains(a),
        0 <= k < s.len(),
        s[k].name == a,
    ensures
        covered_weight(s, used.push(a)) == covered_weight(s, used) + s[k].stake,
    decreases s.len(),
{
    assert(s.len() > 0);
    assert(forall|i: int| 0 <= i < s.drop_last().len() ==> s.drop_last()[i] == s[i]);
    if k == s.len() - 1 {
        assert(absent_name(s.drop_last(), a));
        lemma_covered_weight_absent(s.drop_last(), used, a);
        assert(used.push(a)[used.len() as int] == a);
        assert(used.push(a).contains(a));
    } else {
        lemma_covered_weight_insert(s.drop_last(), used, a, k);
        assert(s.last().name != a);
        if used.contains(s.last().name) {
            let i = choose|i: int| 0 <= i < used.len() && used[i] == s.last().name;
            assert(used.push(a)[i] == s.last().name);
            assert(used.push(a).contains(s.last().name));
        } else {
            assert(!used.push(a).contains(s.last().name)) by {
                if used.push(a).contains(s.last().name) {
                    let i = choose|i: int|
                        0 <= i < used.push(a).len() && used.push(a)[i] == s.last().name;
                    assert(i < used.len());
                }
            }
        }
    }
}

/// A prefix of a committee weighs at most the whole.
pub proof fn lemma_stake_sum_prefix_le(auths: Seq<Authority>, i: int)
    requires
        0 <= i <= auths.len(),
    ensures
        stake_sum(auths.subrange(0, i)) <= stake_sum(auths),
    decreases auths.len() - i,
{
    if i < auths.len() {
        lemma_stake_sum_prefix_le(auths, i + 1);
        assert(auths.subrange(0, i + 1).drop_last() =~= auths.subrange(0, i));
    } else {
        assert(auths.subrange(0, i) =~= auths);
    }
}

/// The committee: the full set of authorities in canonical order, their BLS
/// public keys at the matching positions, and the cached total stake.
pub struct Committee {
    /// The authorities, in canonical order. The position of an authority in
    /// this list is its bit index in certificate bitmaps.
    pub authorities: Vec<Authority>,
    /// The authorities' BLS public keys in compressed form, position for
    /// position with `authorities`.
    pub bls_keys: Vec<Vec<u8>>,
    /// Cached sum of all stakes.
    pub total: Stake,
}

impl Committee {
    /// Well-formedness: distinct names, one BLS key per authority, and a
    /// correctly cached total.
    pub open spec fn wf(self) -> bool {
        &&& distinct_names(self.authorities@)
        &&& self.total == stake_sum(self.authorities@)
        &&& self.authorities@.len() >= 1
        &&& self.bls_keys@.len() == self.authorities@.len()
    }

    /// Whether some authority bears the name `a`.
    pub open spec fn spec_has(self, a: PublicKey) -> bool {
        exists|i: int| 0 <= i < self.authorities@.len() && self.authorities@[i].name == a
    }

    /// The canonical position of the authority named `a`.
    pub open spec fn spec_index_of(self, a: PublicKey) -> int {
        choose|i: int| 0 <= i < self.authorities@.len() && self.authorities@[i].name == a
    }

    /// The stake of the authority named `a`, or 0 for an unknown name.
    pub open spec fn spec_stake(self, a: PublicKey) -> Stake {
        if self.spec_has(a) {
            self.authorities@[self.spec_index_of(a)].stake
        } else {
            0
        }
    }

    /// Quorum threshold: strictly more than two thirds of the total stake.
    pub open spec fn spec_quorum_threshold(self) -> int {
        2 * (self.total as int) / 3 + 1
    }

    /// Validity threshold: strictly more than one third of the total stake.
    pub open spec fn spec_validity_threshold(self) -> int {
        (self.total as int) / 3 + 1
    }

    /// Builds a committee from a list of authorities in canonical order and
    /// their BLS public keys, position for position. Returns `None` if a
    /// name repeats, a list is empty or mismatched, or the total stake does
    /// not fit in a machine word.
    pub fn new(authorities: Vec<Authority>, bls_keys: Vec<Vec<u8>>) -> (r: Option<Committee>)
        ensures
            match r {
                Some(c) => c.wf() && c.authorities@ == authorities@ && c.bls_keys@ == bls_keys@,
                None => authorities@.len() == 0 || bls_keys@.len() != authorities@.len()
                    || !distinct_names(authorities@) || stake_sum(authorities@) > u64::MAX,
            },
            authorities@.len() >= 1 && bls_keys@.len() == authorities@.len() && distinct_names(
                authorities@,
            ) && stake_sum(authorities@) <= u64::MAX ==> r is Some,
    {
        if authorities.len() == 0 || bls_keys.len() != authorities.len() {
            return None;
        }
        let n = authorities.len();
        let mut i: usize = 0;
        while i < n
            invariant
                n == authorities.len(),
                i <= n,
                forall|p: int, q: int|
                    0 <= p < q < i ==> authorities@[p].name != authorities@[q].name,
            decreases n - i,
        {
            let mut j: usize = 0;
            while j < i
                invariant
                    i < n == authorities.len(),
                    j <= i,
                    forall|q: int| 0 <= q < j ==> authorities@[q].name != authorities@[i as int].name,
                decreases i - j,
            {
                if authorities[j].name == authorities[i].name {
                    proof {
                        assert(authorities@[j as int].name == authorities@[i as int].name);
                        assert(!distinct_names(authorities@));
                    }
                    return None;
                }
                j += 1;
            }
            i += 1;
        }
        assert(distinct_names(authorities@));
        let mut total: Stake = 0;
        let mut k: usize = 0;
        while k < n
            invariant
                n == authorities.len(),
                k <= n,
                total == stake_sum(authorities@.subrange(0, k as int)),
            decreases n - k,
        {
            proof {
                assert(authorities@.subrange(0, k + 1).drop_last() =~= authorities@.subrange(
                    0,
                    k as int,
                ));
            }
            if total > Stake::MAX - authorities[k].stake {
                proof {
                    assert(stake_sum(authorities@.subrange(0, k + 1)) > u64::MAX);
                    lemma_stake_sum_prefix_le(authorities@, k + 1);
                }
                return None;
            }
            total = total + authorities[k].stake;
            k += 1;
        }
        proof {
            assert(authorities@.subrange(0, n as int) =~= authorities@);
        }
        Some(Committee { authorities, bls_keys, total })
    }

    /// The number of authorities.
    pub fn size(&self) -> (r: usize)
        ensures
            r == self.authorities@.len(),
    {
        self.authorities.len()
    }

    /// The canonical position of the authority named `a`, if it is a member.
    pub fn index_of(&self, a: &PublicKey) -> (r: Option<usize>)
        requires
            self.wf(),
        ensures
            match r {
                Some(i) => self.spec_has(*a) && i == self.spec_index_of(*a) && i
                    < self.authorities@.len() && self.authorities@[i as int].name == *a,
                None => !self.spec_has(*a),
            },
    {
        let n = self.authorities.len();
        let mut i: usize = 0;
        while i < n
            invariant
                self.wf(),
                n == self.authorities@.len(),
                i <= n,
                forall|j: int| 0 <= j < i ==> self.authorities@[j].name != *a,
            decreases n - i,
        {
            if self.authorities[i].name == *a {
                proof {
                    let w = self.spec_index_of(*a);
                    assert(0 <= w < n && self.authorities@[w].name == *a);
                    assert(w == i);
                }
                return Some(i);
            }
            i += 1;
        }
        None
    }

    /// The stake of the authority named `a`, or 0 for an unknown name.
    pub fn stake(&self, a: &PublicKey) -> (r: Stake)
        requires
            self.wf(),
        ensures
            r == self.spec_stake(*a),
    {
        match self.index_of(a) {
            Some(i) => self.authorities[i].stake,
            None => 0,
        }
    }

    /// Quorum threshold: strictly more than two thirds of the total stake.
    pub fn quorum_threshold(&self) -> (r: u64)
        ensures
            r == self.spec_quorum_threshold(),
    {
        let t = ((2 * (self.total as u128)) / 3 + 1) as u64;
        t
    }

    /// Validity threshold: strictly more than one third of the total stake.
    pub fn validity_threshold(&self) -> (r: u64)
        ensures
            r == self.spec_validity_threshold(),
    {
        self.total / 3 + 1
    }

    /// The designated leader at offset `slot` of a round: round-robin over
    /// the canonical order.
    pub open spec fn spec_leader(self, leaders_per_round: int, round: int, slot: int) -> PublicKey {
        self.authorities@[(round * leaders_per_round + slot) % (self.authorities@.len() as int)].name
    }

    /// The designated leaders of a round, in slot order.
    pub fn leader_list(&self, leaders_per_round: usize, round: u64) -> (r: Vec<PublicKey>)
        requires
            self.wf(),
            1 <= leaders_per_round,
        ensures
            r@.len() == leaders_per_round,
            forall|s: int|
                0 <= s < leaders_per_round ==> r@[s] == self.spec_leader(
                    leaders_per_round as int,
                    round as int,
                    s,
                ),
    {
        let n = self.authorities.len();
        let mut r: Vec<PublicKey> = Vec::new();
        let mut s: usize = 0;
        while s < leaders_per_round
            invariant
                self.wf(),
                n == self.authorities@.len(),
                1 <= leaders_per_round,
                s <= leaders_per_round,
                r@.len() == s,
                forall|t: int|
                    0 <= t < s ==> r@[t] == self.spec_leader(
                        leaders_per_round as int,
                        round as int,
                        t,
                    ),
            decreases leaders_per_round - s,
        {
            proof {
                assert((round as u128) * (leaders_per_round as u128) <= (u64::MAX as u128) * (
                u64::MAX as u128)) by (nonlinear_arith)
                    requires
                        round <= u64::MAX,
                        leaders_per_round as u128 <= u64::MAX as u128,
                ;
                assert((u64::MAX as u128) * (u64::MAX as u128) + (u64::MAX as u128)
                    < u128::MAX);
                vstd::arithmetic::div_mod::lemma_mod_bound(
                    (round as int) * (leaders_per_round as int) + (s as int),
                    n as int,
                );
            }
            let idx = (((round as u128) * (leaders_per_round as u128) + (s as u128)) % (
            n as u128)) as usize;
            r.push(self.authorities[idx].name);
            s += 1;
        }
        r
    }

    /// The BLS public keys of all authorities, in canonical order.
    pub fn bls_public_keys(&self) -> (r: Vec<Vec<u8>>)
        ensures
            r@.len() == self.bls_keys@.len(),
            forall|j: int| 0 <= j < r@.len() ==> r@[j]@ == self.bls_keys@[j]@,
    {
        let n = self.bls_keys.len();
        let mut r: Vec<Vec<u8>> = Vec::new();
        let mut i: usize = 0;
        while i < n
            invariant
                n == self.bls_keys@.len(),
                i <= n,
                r@.len() == i,
                forall|j: int| 0 <= j < i ==> r@[j]@ == self.bls_keys@[j]@,
            decreases n - i,
        {
            r.push(clone_bytes(&self.bls_keys[i]));
            i += 1;
        }
        r
    }
}

/// A copy of a byte vector.
pub fn clone_bytes(v: &Vec<u8>) -> (r: Vec<u8>)
    ensures
        r@ == v@,
{
    let n = v.len();
    let mut r: Vec<u8> = Vec::new();
    let mut i: usize = 0;
    while i < n
        invariant
            n == v@.len(),
            i <= n,
            r@ =~= v@.subrange(0, i as int),
        decreases n - i,
    {
        r.push(v[i]);
        i += 1;
    }
    proof {
        assert(v@.subrange(0, n as int) =~= v@);
    }
    r
}

/// The authorities of `s` that belong to clan `id`, kept in canonical
/// order.
pub open spec fn clan_members(s: Seq<Authority>, id: u64) -> Seq<Authority>
    decreases s.len(),
{
    if s.len() == 0 {
        Seq::empty()
    } else if s.last().clan_id == id {
        clan_members(s.drop_last(), id).push(s.last())
    } else {
        clan_members(s.drop_last(), id)
    }
}

/// A clan: the sub-committee of authorities sharing one clan id, with its
/// own stake total and validity threshold.
pub struct Clan {
    /// The clan id shared by the members.
    pub id: u64,
    /// The members, in canonical committee order.
    pub members: Vec<Authority>,
    /// Cached sum of the members' stakes.
    pub total: Stake,
}

impl Clan {
    /// Well-formedness with respect to the committee it was drawn from.
    pub open spec fn wf(self, c: Committee) -> bool {
        &&& self.members@ == clan_members(c.authorities@, self.id)
        &&& self.total == stake_sum(self.members@)
        &&& distinct_names(self.members@)
    }

    /// Whether the authority named `a` belongs to this clan.
    pub open spec fn spec_is_member(self, a: PublicKey) -> bool {
        exists|i: int| 0 <= i < self.members@.len() && self.members@[i].name == a
    }

    /// The stake `a` holds inside the clan, or 0 for a non-member.
    pub open spec fn spec_stake(self, a: PublicKey) -> Stake {
        if self.spec_is_member(a) {
            self.members@[choose|i: int|
                0 <= i < self.members@.len() && self.members@[i].name == a].stake
        } else {
            0
        }
    }

    /// Validity threshold of the clan: strictly more than one third of the
    /// clan's stake.
    pub open spec fn spec_validity_threshold(self) -> int {
        (self.total as int) / 3 + 1
    }

    /// Extracts the clan `id` from a committee.
    pub fn from_committee(c: &Committee, id: u64) -> (r: Clan)
        requires
            c.wf(),
        ensures
            r.wf(*c),
            r.id == id,
    {
        let n = c.authorities.len();
        let mut members: Vec<Authority> = Vec::new();
        let mut total: Stake = 0;
        let mut i: usize = 0;
        while i < n
            invariant
                c.wf(),
                n == c.authorities@.len(),
                i <= n,
                members@ == clan_members(c.authorities@.subrange(0, i as int), id),
                total == stake_sum(members@),
            decreases n - i,
        {
            proof {
                assert(c.authorities@.subrange(0, i + 1).drop_last() =~= c.authorities@.subrange(
                    0,
                    i as int,
                ));
            }
            let a = c.authorities[i];
            if a.clan_id == id {
                proof {
                    lemma_clan_members_stake_le(c.authorities@, id);
                    lemma_clan_members_prefix_stake(c.authorities@, id, i + 1);
                    assert(members@.push(a).drop_last() =~= members@);
                }
                members.push(a);
                total = total + a.stake;
            }
            i += 1;
        }
        proof {
            assert(c.authorities@.subrange(0, n as int) =~= c.authorities@);
            lemma_clan_members_distinct(c.authorities@, id);
        }
        Clan { id, members, total }
    }

    /// Whether the authority named `a` belongs to this clan.
    pub fn is_member(&self, a: &PublicKey) -> (r: bool)
        ensures
            r == self.spec_is_member(*a),
    {
        let n = self.members.len();
        let mut i: usize = 0;
        while i < n
            invariant
                n == self.members@.len(),
                i <= n,
                forall|j: int| 0 <= j < i ==> self.members@[j].name != *a,
            decreases n - i,
        {
            if self.members[i].name == *a {
                return true;
            }
            i += 1;
        }
        false
    }

    /// The stake `a` holds inside the clan, or 0 for a non-member.
    pub fn stake(&self, a: &PublicKey) -> (r: Stake)
        requires
            distinct_names(self.members@),
        ensures
            r == self.spec_stake(*a),
    {
        let n = self.members.len();
        let mut i: usize = 0;
        while i < n
            invariant
                distinct_names(self.members@),
                n == self.members@.len(),
                i <= n,
                forall|j: int| 0 <= j < i ==> self.members@[j].name != *a,
            decreases n - i,
        {
            if self.members[i].name == *a {
                proof {
                    let w = choose|w: int|
                        0 <= w < self.members@.len() && self.members@[w].name == *a;
                    assert(w == i);
                }
                return self.members[i].stake;
            }
            i += 1;
        }
        0
    }

    /// Validity threshold of the clan: strictly more than one third of the
    /// clan's stake.
    pub fn validity_threshold(&self) -> (r: u64)
        ensures
            r == self.spec_validity_threshold(),
    {
        self.total / 3 + 1
    }
}

/// No clan member bears a name that no authority in `s` bears.
pub proof fn lemma_clan_members_absent(s: Seq<Authority>, id: u64, a: PublicKey)
    requires
        absent_name(s, a),
    ensures
        absent_name(clan_members(s, id), a),
    decreases s.len(),
{
    if s.len() > 0 {
        assert(forall|i: int| 0 <= i < s.drop_last().len() ==> s.drop_last()[i] == s[i]);
        lemma_clan_members_absent(s.drop_last(), id, a);
        if s.last().clan_id == id {
            let cm = clan_members(s.drop_last(), id).push(s.last());
            assert(forall|i: int|
                0 <= i < cm.len() - 1 ==> cm[i] == clan_members(s.drop_last(), id)[i]);
        }
    }
}

/// Distinct committee names give distinct clan member names.
pub proof fn lemma_clan_members_distinct(s: Seq<Authority>, id: u64)
    requires
        distinct_names(s),
    ensures
        distinct_names(clan_members(s, id)),
    decreases s.len(),
{
    if s.len() > 0 {
        assert(forall|i: int| 0 <= i < s.drop_last().len() ==> s.drop_last()[i] == s[i]);
        lemma_clan_members_distinct(s.drop_last(), id);
        if s.last().clan_id == id {
            assert(absent_name(s.drop_last(), s.last().name));
            lemma_clan_members_absent(s.drop_last(), id, s.last().name);
            let cm = clan_members(s.drop_last(), id).push(s.last());
            assert forall|i: int, j: int| 0 <= i < j < cm.len() implies cm[i].name
                != cm[j].name by {
                if j == cm.len() - 1 {
                    assert(cm[i] == clan_members(s.drop_last(), id)[i]);
                }
            }
        }
    }
}

/// The clan's stake is part of the committee's stake.
pub proof fn lemma_clan_members_stake_le(s: Seq<Authority>, id: u64)
    ensures
        0 <= stake_sum(clan_members(s, id)) <= stake_sum(s),
    decreases s.len(),
{
    if s.len() > 0 {
        lemma_clan_members_stake_le(s.drop_last(), id);
        if s.last().clan_id == id {
            assert(clan_members(s.drop_last(), id).push(s.last()).drop_last()
                =~= clan_members(s.drop_last(), id));
        }
    }
}

/// The clan members of a prefix weigh no more than those of the whole.
pub proof fn lemma_clan_members_prefix_stake(s: Seq<Authority>, id: u64, i: int)
    requires
        0 <= i <= s.len(),
    ensures
        stake_sum(clan_members(s.subrange(0, i), id)) <= stake_sum(clan_members(s, id)),
    decreases s.len() - i,
{
    if i < s.len() {
        lemma_clan_members_prefix_stake(s, id, i + 1);
        let p1 = s.subrange(0, i + 1);
        assert(p1.drop_last() =~= s.subrange(0, i));
        if p1.last().clan_id == id {
            assert(clan_members(s.subrange(0, i), id).push(p1.last()).drop_last()
                =~= clan_members(s.subrange(0, i), id));
        }
    } else {
        assert(s.subrange(0, i) =~= s);
    }
}

} // verus!
