//! Verified insertion sorts that put header fields into canonical order:
//! parent digests sorted by the digest order, payload entries sorted by
//! their batch digest.

use crate::types::{Digest, WorkerId};
use vstd::prelude::*;
use vstd::multiset::Multiset;
use vstd::seq_lib::lemma_multiset_commutative;

verus! {

/// Non-strict digest order, derived from the strict word-tuple order.
pub open spec fn digest_le(a: Digest, b: Digest) -> bool {
    !b.spec_lt(a)
}

/// The digests of `s` appear in non-decreasing order.
pub open spec fn sorted_digests(s: Seq<Digest>) -> bool {
    forall|i: int, j: int| 0 <= i < j < s.len() ==> digest_le(s[i], s[j])
}

/// The payload entries of `s` appear in non-decreasing order of their
/// batch digest.
pub open spec fn sorted_payload(s: Seq<(Digest, WorkerId)>) -> bool {
    forall|i: int, j: int| 0 <= i < j < s.len() ==> digest_le(s[i].0, s[j].0)
}

/// Multiset of a sequence after inserting one element.
proof fn lemma_insert_to_multiset<A>(s: Seq<A>, i: int, a: A)
    requires
        0 <= i <= s.len(),
    ensures
        s.insert(i, a).to_multiset() == s.to_multiset().insert(a),
{
    broadcast use vstd::seq_lib::group_to_multiset_ensures;

    let left = s.subrange(0, i);
    let right = s.subrange(i, s.len() as int);
    assert(s.insert(i, a) =~= left + (seq![a] + right));
    assert(s =~= left + right);
    lemma_multiset_commutative(left, seq![a] + right);
    lemma_multiset_commutative(seq![a], right);
    lemma_multiset_commutative(left, right);
    assert(seq![a].to_multiset() =~= Multiset::empty().insert(a)) by {
        assert(seq![a] =~= Seq::empty().push(a));
    }
    assert(s.insert(i, a).to_multiset() =~= s.to_multiset().insert(a));
}

/// Sorts digests into the canonical non-decreasing order, keeping exactly
/// the same elements.
pub fn sort_digests(v: &Vec<Digest>) -> (r: Vec<Digest>)
    ensures
        sorted_digests(r@),
        r@.to_multiset() == v@.to_multiset(),
        r@.len() == v@.len(),
{
    let n = v.len();
    let mut r: Vec<Digest> = Vec::new();
    let mut k: usize = 0;
    proof {
        broadcast use vstd::seq_lib::group_to_multiset_ensures;

        assert(v@.subrange(0, 0) =~= Seq::empty());
        assert(Seq::<Digest>::empty().to_multiset() =~= Multiset::empty());
    }
    while k < n
        invariant
            n == v@.len(),
            k <= n,
            sorted_digests(r@),
            r@.to_multiset() == v@.subrange(0, k as int).to_multiset(),
            r@.len() == k,
        decreases n - k,
    {
        let x = v[k];
        let m = r.len();
        let mut p: usize = 0;
        while p < m && !x.lt(&r[p])
            invariant
                m == r@.len(),
                p <= m,
                forall|i: int| 0 <= i < p ==> digest_le(r@[i], x),
            decreases m - p,
        {
            p += 1;
        }
        proof {
            broadcast use vstd::seq_lib::group_to_multiset_ensures;

            lemma_insert_to_multiset(r@, p as int, x);
            assert(v@.subrange(0, k + 1).drop_last() =~= v@.subrange(0, k as int));
            assert(v@.subrange(0, k + 1).to_multiset() =~= v@.subrange(
                0,
                k as int,
            ).to_multiset().insert(x)) by {
                let s1 = v@.subrange(0, k + 1);
                assert(s1 =~= v@.subrange(0, k as int).push(x));
            }
            let s = r@.insert(p as int, x);
            assert forall|i: int, j: int| 0 <= i < j < s.len() implies digest_le(s[i], s[j]) by {
                assert(p < m ==> x.spec_lt(r@[p as int]));
                assert(s[p as int] == x);
                if i < p {
                    assert(s[i] == r@[i]);
                    assert(digest_le(r@[i], x));
                }
                if p < i {
                    assert(s[i] == r@[i - 1]);
                }
                if j < p {
                    assert(s[j] == r@[j]);
                }
                if p < j {
                    assert(s[j] == r@[j - 1]);
                    assert(p < m);
                    if p < j - 1 {
                        assert(digest_le(r@[p as int], r@[j - 1]));
                    }
                }
                if i < p && j < p {
                    assert(digest_le(r@[i], r@[j]));
                }
                if p < i && p < j {
                    assert(digest_le(r@[i - 1], r@[j - 1]));
                }
            }
        }
        r.insert(p, x);
        k += 1;
    }
    proof {
        assert(v@.subrange(0, n as int) =~= v@);
    }
    r
}

/// Sorts payload entries by batch digest into the canonical non-decreasing
/// order, keeping exactly the same entries.
pub fn sort_payload(v: &Vec<(Digest, WorkerId)>) -> (r: Vec<(Digest, WorkerId)>)
    ensures
        sorted_payload(r@),
        r@.to_multiset() == v@.to_multiset(),
        r@.len() == v@.len(),
{
    let n = v.len();
    let mut r: Vec<(Digest, WorkerId)> = Vec::new();
    let mut k: usize = 0;
    proof {
        broadcast use vstd::seq_lib::group_to_multiset_ensures;

        assert(v@.subrange(0, 0) =~= Seq::empty());
        assert(Seq::<(Digest, WorkerId)>::empty().to_multiset() =~= Multiset::empty());
    }
    while k < n
        invariant
            n == v@.len(),
            k <= n,
            sorted_payload(r@),
            r@.to_multiset() == v@.subrange(0, k as int).to_multiset(),
            r@.len() == k,
        decreases n - k,
    {
        let x = v[k];
        let m = r.len();
        let mut p: usize = 0;
        while p < m && !x.0.lt(&r[p].0)
            invariant
                m == r@.len(),
                p <= m,
                forall|i: int| 0 <= i < p ==> digest_le(r@[i].0, x.0),
            decreases m - p,
        {
            p += 1;
        }
        proof {
            broadcast use vstd::seq_lib::group_to_multiset_ensures;

            lemma_insert_to_multiset(r@, p as int, x);
            assert(v@.subrange(0, k + 1).drop_last() =~= v@.subrange(0, k as int));
            assert(v@.subrange(0, k + 1).to_multiset() =~= v@.subrange(
                0,
                k as int,
            ).to_multiset().insert(x)) by {
                let s1 = v@.subrange(0, k + 1);
                assert(s1 =~= v@.subrange(0, k as int).push(x));
            }
            let s = r@.insert(p as int, x);
            assert forall|i: int, j: int| 0 <= i < j < s.len() implies digest_le(s[i].0, s[j].0) by {
                assert(p < m ==> x.0.spec_lt(r@[p as int].0));
                assert(s[p as int] == x);
                if i < p {
                    assert(s[i] == r@[i]);
                    assert(digest_le(r@[i].0, x.0));
                }
                if p < i {
                    assert(s[i] == r@[i - 1]);
                }
                if j < p {
                    assert(s[j] == r@[j]);
                }
                if p < j {
                    assert(s[j] == r@[j - 1]);
                    assert(p < m);
                    if p < j - 1 {
                        assert(digest_le(r@[p as int].0, r@[j - 1].0));
                    }
                }
                if i < p && j < p {
                    assert(digest_le(r@[i].0, r@[j].0));
                }
                if p < i && p < j {
                    assert(digest_le(r@[i - 1].0, r@[j - 1].0));
                }
            }
        }
        r.insert(p, x);
        k += 1;
    }
    proof {
        assert(v@.subrange(0, n as int) =~= v@);
    }
    r
}

} // verus!
