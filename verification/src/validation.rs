//! Validation of foreign evidence: certificate bitmaps against the two
//! stake thresholds and the aggregate signature, and timeout or no-vote
//! certificates against the committee.

use crate::aggregators::bit_cleared;
use crate::committee::{
    covered_weight, lemma_covered_weight_absent, lemma_covered_weight_insert,
    lemma_covered_weight_le_total, stake_sum, Authority, Clan, Committee,
};
use crate::crypto::{bls_combine_pair, bls_verify, bls_verifies, combined_key_of, ed25519_verify, ed_verifies};
use crate::messages::{timeout_commit, Certificate, TimeoutCertView};
use crate::types::{PublicKey, Stake};
use vstd::prelude::*;

verus! {

// ---------------------------------------------------------------------------
// Bitmap stake sums
// ---------------------------------------------------------------------------
/// Stake of the authorities whose bitmap bit is cleared.
pub open spec fn cleared_stake(auths: Seq<Authority>, words: Seq<u128>) -> int
    decreases auths.len(),
{
    if auths.len() == 0 {
        0
    } else {
        cleared_stake(auths.drop_last(), words) + if bit_cleared(words, auths.len() - 1) {
            auths.last().stake as int
        } else {
            0
        }
    }
}

/// Stake of the clan members whose bitmap bit is cleared.
pub open spec fn cleared_clan_stake(auths: Seq<Authority>, clan_id: u64, words: Seq<u128>) -> int
    decreases auths.len(),
{
    if auths.len() == 0 {
        0
    } else {
        cleared_clan_stake(auths.drop_last(), clan_id, words) + if bit_cleared(
            words,
            auths.len() - 1,
        ) && auths.last().clan_id == clan_id {
            auths.last().stake as int
        } else {
            0
        }
    }
}

/// Cleared stakes are part of the whole.
pub proof fn lemma_cleared_stake_le(auths: Seq<Authority>, clan_id: u64, words: Seq<u128>)
    ensures
        0 <= cleared_stake(auths, words) <= stake_sum(auths),
        0 <= cleared_clan_stake(auths, clan_id, words) <= stake_sum(auths),
    decreases auths.len(),
{
    if auths.len() > 0 {
        lemma_cleared_stake_le(auths.drop_last(), clan_id, words);
    }
}

/// The compressed BLS keys of the contributors, in canonical order.
pub open spec fn contributor_keys(keys: Seq<Seq<u8>>, words: Seq<u128>) -> Seq<Seq<u8>>
    decreases keys.len(),
{
    if keys.len() == 0 {
        Seq::empty()
    } else if bit_cleared(words, keys.len() - 1) {
        contributor_keys(keys.drop_last(), words).push(keys.last())
    } else {
        contributor_keys(keys.drop_last(), words)
    }
}

/// The combined public key of a contributor set: the first key, combined
/// pairwise with each later one; the empty sequence when nobody
/// contributed.
pub open spec fn fold_keys(keys: Seq<Seq<u8>>) -> Seq<u8>
    decreases keys.len(),
{
    if keys.len() == 0 {
        Seq::empty()
    } else if keys.len() == 1 {
        keys[0]
    } else {
        combined_key_of(fold_keys(keys.drop_last()), keys.last())
    }
}

/// The view of the committee's BLS key list.
pub open spec fn bls_key_views(c: Committee) -> Seq<Seq<u8>> {
    c.bls_keys@.map_values(|v: Vec<u8>| v@)
}

/// A certificate is valid for the committee when its contributors carry a
/// quorum of stake, the contributors inside the origin's clan carry that
/// clan's validity threshold, and the aggregate signature verifies over
/// the certified header id under the contributors' combined key.
pub open spec fn spec_certificate_valid(c: Committee, clan_id: u64, cert: crate::messages::CertificateView) -> bool {
    &&& cleared_stake(c.authorities@, cert.bitmap) >= c.spec_quorum_threshold()
    &&& cleared_clan_stake(c.authorities@, clan_id, cert.bitmap) >= stake_sum(
        crate::committee::clan_members(c.authorities@, clan_id),
    ) / 3 + 1
    &&& bls_verifies(
        fold_keys(contributor_keys(bls_key_views(c), cert.bitmap)),
        cert.agg_signature,
        cert.header_id.spec_bytes(),
    )
}

/// Checks a certificate against the committee: both stake thresholds over
/// the bitmap, and the aggregate signature under the contributors'
/// combined key.
pub fn validate_certificate(c: &Committee, clan_id: u64, cert: &Certificate) -> (r: bool)
    requires
        c.wf(),
        cert@.bitmap.len() >= (c.authorities@.len() + 127) / 128,
    ensures
        r == spec_certificate_valid(*c, clan_id, cert@),
{
    let n = c.authorities.len();
    let mut weight: Stake = 0;
    let mut clan_weight: Stake = 0;
    let mut combined: Vec<u8> = Vec::new();
    let mut contributors: usize = 0;
    let ghost keys = bls_key_views(*c);
    let mut i: usize = 0;
    while i < n
        invariant
            c.wf(),
            cert@.bitmap.len() >= (c.authorities@.len() + 127) / 128,
            n == c.authorities@.len(),
            n == c.bls_keys@.len(),
            keys == bls_key_views(*c),
            i <= n,
            weight == cleared_stake(c.authorities@.subrange(0, i as int), cert@.bitmap),
            clan_weight == cleared_clan_stake(
                c.authorities@.subrange(0, i as int),
                clan_id,
                cert@.bitmap,
            ),
            contributors == contributor_keys(keys.subrange(0, i as int), cert@.bitmap).len(),
            contributors <= i,
            combined@ == fold_keys(contributor_keys(keys.subrange(0, i as int), cert@.bitmap)),
        decreases n - i,
    {
        proof {
            assert(c.authorities@.subrange(0, i + 1).drop_last() =~= c.authorities@.subrange(
                0,
                i as int,
            ));
            assert(keys.subrange(0, i + 1).drop_last() =~= keys.subrange(0, i as int));
            lemma_cleared_stake_le(c.authorities@, clan_id, cert@.bitmap);
            lemma_cleared_stake_le(c.authorities@.subrange(0, i + 1), clan_id, cert@.bitmap);
            lemma_prefix_cleared_le(c.authorities@, clan_id, cert@.bitmap, i + 1);
        }
        let chunk = i / 128;
        let bit = i % 128;
        let w = cert.bitmap[chunk];
        if (w >> (bit as u128)) & 1 == 0 {
            assert(bit_cleared(cert@.bitmap, i as int));
            weight = weight + c.authorities[i].stake;
            if c.authorities[i].clan_id == clan_id {
                clan_weight = clan_weight + c.authorities[i].stake;
            }
            let key = &c.bls_keys[i];
            if contributors == 0 {
                combined = crate::committee::clone_bytes(key);
            } else {
                let folded = bls_combine_pair(&combined, key);
                combined = folded;
            }
            contributors = contributors + 1;
            proof {
                let pre = contributor_keys(keys.subrange(0, i as int), cert@.bitmap);
                let post = contributor_keys(keys.subrange(0, i + 1), cert@.bitmap);
                assert(post =~= pre.push(keys[i as int]));
                assert(post.drop_last() =~= pre);
                assert(keys[i as int] == c.bls_keys@[i as int]@);
            }
        } else {
            assert(!bit_cleared(cert@.bitmap, i as int));
            proof {
                let pre = contributor_keys(keys.subrange(0, i as int), cert@.bitmap);
                let post = contributor_keys(keys.subrange(0, i + 1), cert@.bitmap);
                assert(post =~= pre);
            }
        }
        i += 1;
    }
    proof {
        assert(c.authorities@.subrange(0, n as int) =~= c.authorities@);
        assert(keys.subrange(0, n as int) =~= keys);
    }
    let clan = Clan::from_committee(c, clan_id);
    let vt = clan.validity_threshold();
    let q = c.quorum_threshold();
    if weight < q {
        return false;
    }
    if clan_weight < vt {
        return false;
    }
    let id_bytes = cert.header_id.to_bytes();
    bls_verify(&combined, &cert.agg_signature, &id_bytes)
}

/// Prefix cleared stakes never exceed those of the whole list.
pub proof fn lemma_prefix_cleared_le(auths: Seq<Authority>, clan_id: u64, words: Seq<u128>, i: int)
    requires
        0 <= i <= auths.len(),
    ensures
        cleared_stake(auths.subrange(0, i), words) <= stake_sum(auths),
        cleared_clan_stake(auths.subrange(0, i), clan_id, words) <= stake_sum(auths),
{
    lemma_cleared_stake_le(auths.subrange(0, i), clan_id, words);
    crate::committee::lemma_stake_sum_prefix_le(auths, i);
}

// ---------------------------------------------------------------------------
// Timeout and no-vote certificate validation
// ---------------------------------------------------------------------------
/// The authors of a certificate's entries.
pub open spec fn entry_authors(entries: Seq<(PublicKey, Seq<u8>)>) -> Seq<PublicKey> {
    entries.map_values(|e: (PublicKey, Seq<u8>)| e.0)
}

/// A timeout (or no-vote) certificate is valid at `round` for the
/// committee when it names that round, its authors are distinct, every
/// signature verifies over the round-and-author commitment under the
/// author's identity key, and the authors carry a quorum of stake.
pub open spec fn spec_timeout_cert_valid(c: Committee, round: u64, tc: TimeoutCertView) -> bool {
    &&& tc.round == round
    &&& forall|i: int, j: int|
        0 <= i < j < tc.timeouts.len() ==> tc.timeouts[i].0 != tc.timeouts[j].0
    &&& forall|i: int|
        0 <= i < tc.timeouts.len() ==> ed_verifies(
            (#[trigger] tc.timeouts[i].0).spec_bytes(),
            tc.timeouts[i].1,
            timeout_commit(round, tc.timeouts[i].0),
        )
    &&& covered_weight(c.authorities@, entry_authors(tc.timeouts)) >= c.spec_quorum_threshold()
}

/// Checks a timeout (or no-vote) certificate against the committee.
pub fn verify_timeout_cert_parts(
    c: &Committee,
    round: u64,
    cert_round: u64,
    entries: &Vec<(PublicKey, Vec<u8>)>,
) -> (r: bool)
    requires
        c.wf(),
    ensures
        r == spec_timeout_cert_valid(
            *c,
            round,
            TimeoutCertView { round: cert_round, timeouts: crate::codec::ev(entries@) },
        ),
{
    let ghost tcv = TimeoutCertView { round: cert_round, timeouts: crate::codec::ev(entries@) };
    if cert_round != round {
        return false;
    }
    let n = entries.len();
    // Distinct authors.
    let mut i: usize = 0;
    while i < n
        invariant
            n == entries@.len(),
            i <= n,
            forall|p: int, q: int| 0 <= p < q < i ==> entries@[p].0 != entries@[q].0,
        decreases n - i,
    {
        let mut j: usize = 0;
        while j < i
            invariant
                i < n == entries@.len(),
                j <= i,
                forall|q: int| 0 <= q < j ==> entries@[q].0 != entries@[i as int].0,
            decreases i - j,
        {
            if entries[j].0 == entries[i].0 {
                proof {
                    let tv = crate::codec::ev(entries@);
                    assert(tv[j as int].0 == entries@[j as int].0);
                    assert(tv[i as int].0 == entries@[i as int].0);
                }
                return false;
            }
            j += 1;
        }
        i += 1;
    }
    // Signatures.
    let mut k: usize = 0;
    while k < n
        invariant
            n == entries@.len(),
            k <= n,
            cert_round == round,
            forall|t: int|
                0 <= t < k ==> ed_verifies(
                    (#[trigger] entries@[t].0).spec_bytes(),
                    entries@[t].1@,
                    timeout_commit(round, entries@[t].0),
                ),
        decreases n - k,
    {
        let author = entries[k].0;
        let pk_bytes = author.to_bytes();
        let msg = crate::messages::Timeout::commit_bytes(round, author);
        if !ed25519_verify(&pk_bytes, &entries[k].1, &msg) {
            proof {
                let tv = crate::codec::ev(entries@);
                assert(tv[k as int] == (entries@[k as int].0, entries@[k as int].1@));
                assert(!ed_verifies(
                    tv[k as int].0.spec_bytes(),
                    tv[k as int].1,
                    timeout_commit(round, tv[k as int].0),
                ));
            }
            return false;
        }
        k += 1;
    }
    // Stake.
    let mut weight: Stake = 0;
    let mut m: usize = 0;
    proof {
        crate::aggregators::lemma_covered_empty(c.authorities@);
        assert(entry_authors(tcv.timeouts).subrange(0, 0) =~= Seq::<PublicKey>::empty());
    }
    while m < n
        invariant
            c.wf(),
            n == entries@.len(),
            m <= n,
            forall|p: int, q: int| 0 <= p < q < n ==> entries@[p].0 != entries@[q].0,
            weight == covered_weight(
                c.authorities@,
                entry_authors(crate::codec::ev(entries@)).subrange(0, m as int),
            ),
        decreases n - m,
    {
        let ghost authors = entry_authors(crate::codec::ev(entries@));
        let ghost pre = authors.subrange(0, m as int);
        let author = entries[m].0;
        proof {
            assert(authors.subrange(0, m + 1) =~= pre.push(author));
            assert(!pre.contains(author)) by {
                if pre.contains(author) {
                    let t = choose|t: int| 0 <= t < pre.len() && pre[t] == author;
                    assert(entries@[t].0 == author);
                }
            }
            if c.spec_has(author) {
                lemma_covered_weight_le_total(c.authorities@, pre.push(author));
                lemma_covered_weight_insert(c.authorities@, pre, author, c.spec_index_of(author));
            } else {
                assert(crate::committee::absent_name(c.authorities@, author));
                lemma_covered_weight_absent(c.authorities@, pre, author);
                lemma_covered_weight_le_total(c.authorities@, pre);
            }
        }
        weight = weight + c.stake(&author);
        m += 1;
    }
    proof {
        let tv = crate::codec::ev(entries@);
        assert(entry_authors(tv).subrange(0, n as int) =~= entry_authors(tv));
        assert forall|p: int, q: int| 0 <= p < q < tv.len() implies tv[p].0 != tv[q].0 by {
            assert(tv[p].0 == entries@[p].0);
            assert(tv[q].0 == entries@[q].0);
        }
        assert forall|t: int| 0 <= t < tv.len() implies ed_verifies(
            (#[trigger] tv[t].0).spec_bytes(),
            tv[t].1,
            timeout_commit(round, tv[t].0),
        ) by {
            assert(tv[t] == (entries@[t].0, entries@[t].1@));
            assert(ed_verifies(
                entries@[t].0.spec_bytes(),
                entries@[t].1@,
                timeout_commit(round, entries@[t].0),
            ));
        }
    }
    weight >= c.quorum_threshold()
}

} // verus!
