//! The four aggregators that fold per-round messages into certificates
//! once stake thresholds are reached.
//!
//! Each aggregator keeps a used-set of contributing authors and a running
//! stake weight, stated as the covered weight of the used-set over the
//! committee. The votes aggregator additionally keeps the contributor
//! bitmap (one bit per authority in canonical order, cleared on
//! contribution) and the running BLS aggregate of the signature shares.

use crate::committee::{
    absent_name, covered_weight, lemma_covered_weight_absent, lemma_covered_weight_insert,
    lemma_covered_weight_le_total, Clan, Committee,
};
use crate::crypto::{aggregated_sig_of, bls_aggregate_pair};
use crate::error::{DagError, DagResult};
use crate::messages::{Certificate, CertificateView, NoVoteCert, NoVoteMsg, Timeout, TimeoutCert, Vote};
use crate::types::{PublicKey, Stake};
use vstd::prelude::*;

verus! {

// ---------------------------------------------------------------------------
// Bitmap reasoning
// ---------------------------------------------------------------------------
/// Whether bit `i` of the bitmap is cleared: the authority at canonical
/// position `i` contributed.
pub open spec fn bit_cleared(words: Seq<u128>, i: int) -> bool {
    (words[i / 128] >> ((i % 128) as u128)) & 1 == 0
}

/// Clearing one bit clears exactly that bit.
proof fn lemma_clear_bit(w: u128, b: u128)
    requires
        b < 128,
    ensures
        ((w & !(1u128 << b)) >> b) & 1 == 0,
        forall|j: u128| j < 128 && j != b ==> ((w & !(1u128 << b)) >> j) & 1 == (w >> j) & 1,
{
    assert(((w & !(1u128 << b)) >> b) & 1 == 0) by (bit_vector)
        requires
            b < 128,
    ;
    assert forall|j: u128| j < 128 && j != b implies ((w & !(1u128 << b)) >> j) & 1 == (w >> j)
        & 1 by {
        assert(((w & !(1u128 << b)) >> j) & 1 == (w >> j) & 1) by (bit_vector)
            requires
                b < 128,
                j < 128,
                j != b,
        ;
    }
}

/// In an all-ones word no bit is cleared.
proof fn lemma_ones_bit(j: u128)
    requires
        j < 128,
    ensures
        (u128::MAX >> j) & 1 == 1,
{
    assert((u128::MAX >> j) & 1 == 1) by (bit_vector)
        requires
            j < 128,
    ;
}

/// A copy of a word vector.
pub fn clone_words(v: &Vec<u128>) -> (r: Vec<u128>)
    ensures
        r@ == v@,
{
    let n = v.len();
    let mut r: Vec<u128> = Vec::new();
    let mut i: usize = 0;
    while i < n
        invariant
            n == v@.len(),
            i <= n,
            r@ =~= v@.subrange(0, i as int),
        decreases n - i,
    {
        r.push(v[i]);
        i += 1;
    }
    proof {
        assert(v@.subrange(0, n as int) =~= v@);
    }
    r
}

// ---------------------------------------------------------------------------
// Signature folding
// ---------------------------------------------------------------------------
/// The BLS aggregate of a sequence of signature shares: the first share,
/// folded pairwise with each later one.
pub open spec fn fold_sigs(s: Seq<Seq<u8>>) -> Seq<u8>
    decreases s.len(),
{
    if s.len() == 0 {
        Seq::empty()
    } else if s.len() == 1 {
        s[0]
    } else {
        aggregated_sig_of(fold_sigs(s.drop_last()), s.last())
    }
}

// ---------------------------------------------------------------------------
// Votes aggregator
// ---------------------------------------------------------------------------
/// Aggregates votes for one proposed header into a certificate. The
/// certificate is emitted exactly once: at the first append that brings
/// the committee weight to the quorum threshold while the clan weight
/// meets the clan's validity threshold.
pub struct VotesAggregator {
    /// Stake of the contributing authors over the whole committee.
    pub committee_weight: Stake,
    /// Stake of the contributing authors that belong to the origin's clan.
    pub clan_weight: Stake,
    /// The signature shares, in arrival order.
    pub votes: Vec<Vec<u8>>,
    /// The distinct authors that contributed so far.
    pub used: Vec<PublicKey>,
    /// The running BLS aggregate of `votes`.
    pub agg_sign: Vec<u8>,
    /// The contributor bitmap: one bit per authority in canonical order,
    /// all ones initially, cleared on contribution.
    pub pk_bit_vec: Vec<u128>,
    /// The committee size the bitmap was dimensioned for.
    pub total_nodes: usize,
    /// Whether the certificate was already emitted.
    pub latched: bool,
}

/// The signature shares of the votes, as byte sequences.
pub open spec fn sig_views(votes: Seq<Vec<u8>>) -> Seq<Seq<u8>> {
    votes.map_values(|v: Vec<u8>| v@)
}

impl VotesAggregator {
    /// Well-formedness over the committee and the origin's clan.
    pub open spec fn wf(self, c: Committee, clan: Clan) -> bool {
        &&& distinct_names_keys(self.used@)
        &&& self.total_nodes == c.authorities@.len()
        &&& self.pk_bit_vec@.len() == (self.total_nodes + 127) / 128
        &&& self.committee_weight == covered_weight(c.authorities@, self.used@)
        &&& self.clan_weight == covered_weight(clan.members@, self.used@)
        &&& forall|i: int|
            0 <= i < self.total_nodes ==> (bit_cleared(self.pk_bit_vec@, i) <==> self.used@.contains(
                c.authorities@[i].name,
            ))
        &&& self.agg_sign@ == fold_sigs(sig_views(self.votes@))
        &&& self.votes@.len() == self.used@.len()
    }

    /// A fresh aggregator for a committee of `c`'s size: all-ones bitmap,
    /// no contributors, zero weights.
    pub fn new(c: &Committee, clan: &Clan) -> (r: VotesAggregator)
        requires
            c.wf(),
            c.authorities@.len() <= usize::MAX - 127,
        ensures
            r.wf(*c, *clan),
            r.used@.len() == 0,
            r.committee_weight == 0,
            r.clan_weight == 0,
            !r.latched,
            forall|j: int| 0 <= j < r.pk_bit_vec@.len() ==> r.pk_bit_vec@[j] == u128::MAX,
    {
        let total_nodes = c.size();
        let words = (total_nodes + 127) / 128;
        let mut bits: Vec<u128> = Vec::new();
        let mut i: usize = 0;
        while i < words
            invariant
                i <= words,
                bits@.len() == i,
                forall|j: int| 0 <= j < i ==> bits@[j] == u128::MAX,
            decreases words - i,
        {
            bits.push(u128::MAX);
            i += 1;
        }
        let r = VotesAggregator {
            committee_weight: 0,
            clan_weight: 0,
            votes: Vec::new(),
            used: Vec::new(),
            agg_sign: Vec::new(),
            pk_bit_vec: bits,
            total_nodes,
            latched: false,
        };
        proof {
            assert forall|i2: int| 0 <= i2 < total_nodes implies !bit_cleared(r.pk_bit_vec@, i2) by {
                lemma_ones_bit((i2 % 128) as u128);
                assert(0 <= i2 / 128 < words);
            }
            assert(r.committee_weight == covered_weight(c.authorities@, r.used@)) by {
                lemma_covered_empty(c.authorities@);
            }
            assert(r.clan_weight == covered_weight(clan.members@, r.used@)) by {
                lemma_covered_empty(clan.members@);
            }
        }
        r
    }

    /// Folds one vote in. Errors: `UnknownAuthority` for an author outside
    /// the committee, `AuthorityReuse` for a repeated author. Emits the
    /// certificate exactly at the first append where the committee weight
    /// reaches the quorum threshold and the clan weight reaches the clan's
    /// validity threshold, and never again.
    pub fn append(&mut self, vote: Vote, committee: &Committee, clan: &Clan) -> (r: DagResult<
        Option<Certificate>,
    >)
        requires
            old(self).wf(*committee, *clan),
            committee.wf(),
            clan.wf(*committee),
        ensures
            final(self).wf(*committee, *clan),
            match r {
                Err(e) => *final(self) == *old(self) && (e matches DagError::UnknownAuthority(a)
                    ==> a == vote@.author && !committee.spec_has(vote@.author)) && (
                e matches DagError::AuthorityReuse(a) ==> a == vote@.author && committee.spec_has(
                    vote@.author,
                ) && old(self).used@.contains(vote@.author)) && (
                e matches DagError::UnknownAuthority(_) || e matches DagError::AuthorityReuse(_)),
                Ok(opt) => {
                    &&& committee.spec_has(vote@.author)
                    &&& !old(self).used@.contains(vote@.author)
                    &&& final(self).used@ == old(self).used@.push(vote@.author)
                    &&& final(self).committee_weight == old(self).committee_weight
                        + committee.spec_stake(vote@.author)
                    &&& final(self).clan_weight == old(self).clan_weight + clan.spec_stake(
                        vote@.author,
                    )
                    &&& final(self).total_nodes == old(self).total_nodes
                    &&& forall|i: int|
                        0 <= i < final(self).total_nodes ==> (bit_cleared(final(self).pk_bit_vec@, i)
                            <==> (bit_cleared(old(self).pk_bit_vec@, i) || i
                            == committee.spec_index_of(vote@.author)))
                    &&& match opt {
                        Some(cert) => !old(self).latched && final(self).committee_weight
                            >= committee.spec_quorum_threshold() && final(self).clan_weight
                            >= clan.spec_validity_threshold() && final(self).latched && cert@ == (
                        CertificateView {
                            header_id: vote@.id,
                            round: vote@.round,
                            origin: vote@.origin,
                            bitmap: final(self).pk_bit_vec@,
                            agg_signature: final(self).agg_sign@,
                        }),
                        None => final(self).latched == old(self).latched && (old(self).latched
                            || final(self).committee_weight < committee.spec_quorum_threshold()
                            || final(self).clan_weight < clan.spec_validity_threshold()),
                    }
                },
            },
    {
        let author = vote.author;
        let idx = match committee.index_of(&author) {
            Some(i) => i,
            None => {
                return Err(DagError::UnknownAuthority(author));
            },
        };
        let nu = self.used.len();
        let mut i: usize = 0;
        while i < nu
            invariant
                *self == *old(self),
                old(self).wf(*committee, *clan),
                committee.wf(),
                committee.spec_has(vote@.author),
                author == vote@.author,
                nu == self.used@.len(),
                i <= nu,
                forall|j: int| 0 <= j < i ==> self.used@[j] != author,
            decreases nu - i,
        {
            if self.used[i] == author {
                assert(self.used@[i as int] == author);
                assert(self.used@.contains(author));
                return Err(DagError::AuthorityReuse(author));
            }
            i += 1;
        }
        assert(!self.used@.contains(author));
        let ghost oldused = self.used@;
        // Record the author and account its stake.
        proof {
            lemma_covered_weight_le_total(c_auths(committee), self.used@.push(author));
            lemma_covered_weight_insert(
                c_auths(committee),
                self.used@,
                author,
                committee.spec_index_of(author),
            );
        }
        self.committee_weight = self.committee_weight + committee.stake(&author);
        if clan.is_member(&author) {
            proof {
                let k = choose|k: int|
                    0 <= k < clan.members@.len() && clan.members@[k].name == author;
                lemma_covered_weight_le_total(clan.members@, self.used@.push(author));
                lemma_covered_weight_insert(clan.members@, self.used@, author, k);
            }
            let cs = clan.stake(&author);
            self.clan_weight = self.clan_weight + cs;
        } else {
            proof {
                assert(absent_name(clan.members@, author));
                lemma_covered_weight_absent(clan.members@, self.used@, author);
            }
        }
        self.used.push(author);
        proof {
            assert forall|p: int, q: int| 0 <= p < q < self.used@.len() implies self.used@[p]
                != self.used@[q] by {
                if q == self.used@.len() - 1 {
                    assert(self.used@[p] == oldused[p]);
                }
            }
        }
        // Clear the author's bit in the contributor bitmap.
        let chunk = idx / 128;
        let bit = idx % 128;
        let w = self.pk_bit_vec[chunk];
        let ghost oldbits = self.pk_bit_vec@;
        self.pk_bit_vec.set(chunk, w & !(1u128 << (bit as u128)));
        proof {
            lemma_clear_bit(w, bit as u128);
            assert forall|i2: int| 0 <= i2 < self.total_nodes implies (bit_cleared(
                self.pk_bit_vec@,
                i2,
            ) <==> (bit_cleared(oldbits, i2) || i2 == idx)) by {
                if i2 / 128 == chunk {
                    if i2 != idx {
                        assert(((w & !(1u128 << (bit as u128))) >> ((i2 % 128) as u128)) & 1 == (w
                            >> ((i2 % 128) as u128)) & 1);
                    }
                } else {
                    assert(self.pk_bit_vec@[i2 / 128] == oldbits[i2 / 128]);
                }
            }
        }
        // Fold the signature share into the running aggregate.
        let ghost oldsigs = sig_views(self.votes@);
        if self.votes.len() == 0 {
            self.agg_sign = crate::committee::clone_bytes(&vote.signature);
        } else {
            let folded = bls_aggregate_pair(&self.agg_sign, &vote.signature);
            self.agg_sign = folded;
        }
        self.votes.push(vote.signature);
        proof {
            assert(sig_views(self.votes@) =~= oldsigs.push(self.votes@.last()@));
            assert(sig_views(self.votes@).drop_last() =~= oldsigs);
            assert(self.agg_sign@ == fold_sigs(sig_views(self.votes@)));
        }
        proof {
            let auths = committee.authorities@;
            assert forall|i2: int| 0 <= i2 < self.total_nodes implies (bit_cleared(
                self.pk_bit_vec@,
                i2,
            ) <==> self.used@.contains(auths[i2].name)) by {
                let nm = auths[i2].name;
                assert(bit_cleared(self.pk_bit_vec@, i2) <==> (bit_cleared(oldbits, i2) || i2
                    == idx));
                assert(bit_cleared(oldbits, i2) <==> oldused.contains(nm));
                if i2 == idx {
                    assert(self.used@[self.used@.len() - 1] == author);
                    assert(self.used@.contains(author));
                    assert(nm == author);
                } else {
                    assert(nm != author) by {
                        if nm == author {
                            let w = committee.spec_index_of(author);
                            assert(auths[w].name == author);
                            assert(w == idx || i2 == w || auths[i2].name != auths[w].name);
                        }
                    }
                    if oldused.contains(nm) {
                        let k = choose|k: int| 0 <= k < oldused.len() && oldused[k] == nm;
                        assert(self.used@[k] == nm);
                        assert(self.used@.contains(nm));
                    }
                    if self.used@.contains(nm) {
                        let k = choose|k: int|
                            0 <= k < self.used@.len() && self.used@[k] == nm;
                        assert(k < oldused.len());
                        assert(oldused[k] == nm);
                        assert(oldused.contains(nm));
                    }
                }
            }
        }
        // Emit the certificate exactly once, at the threshold.
        if !self.latched && self.committee_weight >= committee.quorum_threshold()
            && self.clan_weight >= clan.validity_threshold() {
            self.latched = true;
            let cert = Certificate {
                header_id: vote.id,
                round: vote.round,
                origin: vote.origin,
                bitmap: clone_words(&self.pk_bit_vec),
                agg_signature: crate::committee::clone_bytes(&self.agg_sign),
            };
            return Ok(Some(cert));
        }
        Ok(None)
    }
}

/// The authorities of a committee; a shorthand for contracts.
pub open spec fn c_auths(c: &Committee) -> Seq<crate::committee::Authority> {
    c.authorities@
}

/// Pairwise distinct keys.
pub open spec fn distinct_names_keys(s: Seq<PublicKey>) -> bool {
    forall|i: int, j: int| 0 <= i < j < s.len() ==> s[i] != s[j]
}

/// The covered weight of an empty used-set is zero.
pub proof fn lemma_covered_empty(s: Seq<crate::committee::Authority>)
    ensures
        covered_weight(s, Seq::<PublicKey>::empty()) == 0,
    decreases s.len(),
{
    if s.len() > 0 {
        lemma_covered_empty(s.drop_last());
    }
}

// ---------------------------------------------------------------------------
// Certificates aggregator
// ---------------------------------------------------------------------------
/// Entry views of a list of `(author, signature)` pairs.
pub open spec fn entries_views(s: Seq<(PublicKey, Vec<u8>)>) -> Seq<(PublicKey, Seq<u8>)> {
    s.map_values(|e: (PublicKey, Vec<u8>)| (e.0, e.1@))
}

/// A copy of a list of `(author, signature)` pairs.
pub fn clone_entries(v: &Vec<(PublicKey, Vec<u8>)>) -> (r: Vec<(PublicKey, Vec<u8>)>)
    ensures
        entries_views(r@) == entries_views(v@),
        r@.len() == v@.len(),
{
    let n = v.len();
    let mut r: Vec<(PublicKey, Vec<u8>)> = Vec::new();
    let mut i: usize = 0;
    while i < n
        invariant
            n == v@.len(),
            i <= n,
            r@.len() == i,
            forall|j: int| 0 <= j < i ==> r@[j].0 == v@[j].0 && r@[j].1@ == v@[j].1@,
        decreases n - i,
    {
        let e = (v[i].0, crate::committee::clone_bytes(&v[i].1));
        r.push(e);
        i += 1;
    }
    proof {
        assert(entries_views(r@) =~= entries_views(v@));
    }
    r
}

/// Every designated leader of the round is among the used origins.
pub open spec fn leaders_present(
    c: Committee,
    leaders_per_round: int,
    round: int,
    used: Seq<PublicKey>,
) -> bool {
    forall|s: int|
        0 <= s < leaders_per_round ==> used.contains(c.spec_leader(leaders_per_round, round, s))
}

/// Aggregates the certificates of one round. A batch is emitted only when
/// every designated leader of the round has contributed and the total
/// stake reaches the quorum threshold; the batch keeps insertion order.
pub struct CertificatesAggregator {
    /// Stake of the contributing origins.
    pub weight: Stake,
    /// The certificates gathered since the last emission, in insertion
    /// order.
    pub certificates: Vec<Certificate>,
    /// The distinct origins seen so far.
    pub used: Vec<PublicKey>,
}

impl CertificatesAggregator {
    /// Well-formedness over the committee.
    pub open spec fn wf(self, c: Committee) -> bool {
        &&& distinct_names_keys(self.used@)
        &&& self.weight == covered_weight(c.authorities@, self.used@)
    }

    pub fn new() -> (r: CertificatesAggregator)
        ensures
            r.used@.len() == 0,
            r.certificates@.len() == 0,
            r.weight == 0,
            forall|c: Committee| r.wf(c),
    {
        let r = CertificatesAggregator { weight: 0, certificates: Vec::new(), used: Vec::new() };
        proof {
            assert forall|c: Committee| r.wf(c) by {
                lemma_covered_empty(c.authorities@);
            }
        }
        r
    }

    /// Folds one certificate in. A repeated origin is ignored silently.
    /// Emits the gathered batch exactly when every leader of the round has
    /// contributed and the stake reaches the quorum threshold.
    pub fn append(
        &mut self,
        certificate: Certificate,
        committee: &Committee,
        leaders_per_round: usize,
    ) -> (r: DagResult<Option<Vec<Certificate>>>)
        requires
            old(self).wf(*committee),
            committee.wf(),
            1 <= leaders_per_round,
        ensures
            final(self).wf(*committee),
            match r {
                Ok(opt) => {
                    if old(self).used@.contains(certificate@.origin) {
                        opt matches Option::None && *final(self) == *old(self)
                    } else {
                        &&& final(self).used@ == old(self).used@.push(certificate@.origin)
                        &&& final(self).weight == old(self).weight + committee.spec_stake(
                            certificate@.origin,
                        )
                        &&& match opt {
                            Some(batch) => leaders_present(
                                *committee,
                                leaders_per_round as int,
                                certificate@.round as int,
                                final(self).used@,
                            ) && final(self).weight >= committee.spec_quorum_threshold() && batch@
                                == old(self).certificates@.push(certificate)
                                && final(self).certificates@.len() == 0,
                            None => (!leaders_present(
                                *committee,
                                leaders_per_round as int,
                                certificate@.round as int,
                                final(self).used@,
                            ) || final(self).weight < committee.spec_quorum_threshold())
                                && final(self).certificates@ == old(self).certificates@.push(certificate),
                        }
                    }
                },
                Err(_) => false,
            },
    {
        let origin = certificate.origin();
        let round = certificate.round();
        let ghost cert0 = certificate;
        let nu = self.used.len();
        let mut i: usize = 0;
        while i < nu
            invariant
                *self == *old(self),
                old(self).wf(*committee),
                committee.wf(),
                nu == self.used@.len(),
                i <= nu,
                origin == cert0@.origin,
                cert0 == certificate,
                forall|j: int| 0 <= j < i ==> self.used@[j] != origin,
            decreases nu - i,
        {
            if self.used[i] == origin {
                assert(self.used@[i as int] == origin);
                assert(self.used@.contains(origin));
                return Ok(None);
            }
            i += 1;
        }
        assert(!self.used@.contains(origin));
        let ghost oldused = self.used@;
        proof {
            if committee.spec_has(origin) {
                lemma_covered_weight_le_total(c_auths(committee), self.used@.push(origin));
                lemma_covered_weight_insert(
                    c_auths(committee),
                    self.used@,
                    origin,
                    committee.spec_index_of(origin),
                );
            } else {
                assert(absent_name(c_auths(committee), origin));
                lemma_covered_weight_absent(c_auths(committee), self.used@, origin);
                lemma_covered_weight_le_total(c_auths(committee), self.used@);
            }
        }
        self.weight = self.weight + committee.stake(&origin);
        self.used.push(origin);
        self.certificates.push(certificate);
        proof {
            assert forall|p: int, q: int| 0 <= p < q < self.used@.len() implies self.used@[p]
                != self.used@[q] by {
                if q == self.used@.len() - 1 {
                    assert(self.used@[p] == oldused[p]);
                }
            }
        }
        // A batch leaves only when every leader of the round is in.
        let leaders = committee.leader_list(leaders_per_round, round);
        let nl = leaders.len();
        let mut li: usize = 0;
        while li < nl
            invariant
                committee.wf(),
                self.wf(*committee),
                1 <= leaders_per_round,
                nl == leaders@.len(),
                nl == leaders_per_round,
                li <= nl,
                forall|t: int|
                    0 <= t < nl ==> leaders@[t] == committee.spec_leader(
                        leaders_per_round as int,
                        round as int,
                        t,
                    ),
                round == cert0@.round,
                cert0 == certificate,
                !old(self).used@.contains(cert0@.origin),
                self.used@ == old(self).used@.push(cert0@.origin),
                self.weight == old(self).weight + committee.spec_stake(cert0@.origin),
                self.certificates@ == old(self).certificates@.push(cert0),
                forall|t: int| 0 <= t < li ==> self.used@.contains(leaders@[t]),
            decreases nl - li,
        {
            let leader = leaders[li];
            let m = self.used.len();
            let mut k: usize = 0;
            let mut found = false;
            while k < m
                invariant
                    m == self.used@.len(),
                    k <= m,
                    leader == leaders@[li as int],
                    found ==> self.used@.contains(leader),
                    !found ==> forall|j: int| 0 <= j < k ==> self.used@[j] != leader,
                decreases m - k,
            {
                if self.used[k] == leader {
                    assert(self.used@[k as int] == leader);
                    found = true;
                    k = m;
                } else {
                    k += 1;
                }
            }
            if !found {
                assert(!self.used@.contains(leader));
                proof {
                    assert(!leaders_present(
                        *committee,
                        leaders_per_round as int,
                        cert0@.round as int,
                        self.used@,
                    )) by {
                        assert(leaders@[li as int] == committee.spec_leader(
                            leaders_per_round as int,
                            cert0@.round as int,
                            li as int,
                        ));
                    }
                }
                return Ok(None);
            }
            li += 1;
        }
        proof {
            assert(leaders_present(
                *committee,
                leaders_per_round as int,
                cert0@.round as int,
                self.used@,
            )) by {
                assert forall|t: int| 0 <= t < leaders_per_round implies self.used@.contains(
                    committee.spec_leader(leaders_per_round as int, cert0@.round as int, t),
                ) by {
                    assert(self.used@.contains(leaders@[t]));
                }
            }
        }
        if self.weight >= committee.quorum_threshold() {
            let mut batch: Vec<Certificate> = Vec::new();
            core::mem::swap(&mut batch, &mut self.certificates);
            return Ok(Some(batch));
        }
        Ok(None)
    }
}

// ---------------------------------------------------------------------------
// Timeout aggregator
// ---------------------------------------------------------------------------
/// Aggregates the timeouts of one round into a timeout certificate once
/// the contributing stake reaches the quorum threshold.
pub struct TimeoutAggregator {
    /// Stake of the contributing authors.
    pub weight: Stake,
    /// The `(author, signature)` pairs gathered so far, in insertion order.
    pub timeouts: Vec<(PublicKey, Vec<u8>)>,
    /// The distinct authors seen so far.
    pub used: Vec<PublicKey>,
}

impl TimeoutAggregator {
    /// Well-formedness over the committee.
    pub open spec fn wf(self, c: Committee) -> bool {
        &&& distinct_names_keys(self.used@)
        &&& self.weight == covered_weight(c.authorities@, self.used@)
    }

    pub fn new() -> (r: TimeoutAggregator)
        ensures
            r.used@.len() == 0,
            r.timeouts@.len() == 0,
            r.weight == 0,
            forall|c: Committee| r.wf(c),
    {
        let r = TimeoutAggregator { weight: 0, timeouts: Vec::new(), used: Vec::new() };
        proof {
            assert forall|c: Committee| r.wf(c) by {
                lemma_covered_empty(c.authorities@);
            }
        }
        r
    }

    /// Folds one timeout in; a repeated author is an `AuthorityReuse`
    /// error. Emits a timeout certificate whenever the stake reaches the
    /// quorum threshold.
    pub fn append(&mut self, timeout: Timeout, committee: &Committee) -> (r: DagResult<
        Option<TimeoutCert>,
    >)
        requires
            old(self).wf(*committee),
            committee.wf(),
        ensures
            final(self).wf(*committee),
            match r {
                Err(e) => *final(self) == *old(self) && e == DagError::AuthorityReuse(
                    timeout@.author,
                ) && old(self).used@.contains(timeout@.author),
                Ok(opt) => {
                    &&& !old(self).used@.contains(timeout@.author)
                    &&& final(self).used@ == old(self).used@.push(timeout@.author)
                    &&& final(self).weight == old(self).weight + committee.spec_stake(
                        timeout@.author,
                    )
                    &&& entries_views(final(self).timeouts@) == entries_views(
                        old(self).timeouts@,
                    ).push((timeout@.author, timeout@.signature))
                    &&& match opt {
                        Some(cert) => final(self).weight >= committee.spec_quorum_threshold()
                            && cert@.round == timeout@.round && cert@.timeouts == entries_views(
                            final(self).timeouts@,
                        ),
                        None => final(self).weight < committee.spec_quorum_threshold(),
                    }
                },
            },
    {
        let author = timeout.author;
        let nu = self.used.len();
        let mut i: usize = 0;
        while i < nu
            invariant
                *self == *old(self),
                old(self).wf(*committee),
                committee.wf(),
                nu == self.used@.len(),
                i <= nu,
                author == timeout@.author,
                forall|j: int| 0 <= j < i ==> self.used@[j] != author,
            decreases nu - i,
        {
            if self.used[i] == author {
                assert(self.used@[i as int] == author);
                assert(self.used@.contains(author));
                return Err(DagError::AuthorityReuse(author));
            }
            i += 1;
        }
        assert(!self.used@.contains(author));
        let ghost oldused = self.used@;
        let ghost oldentries = entries_views(self.timeouts@);
        proof {
            if committee.spec_has(author) {
                lemma_covered_weight_le_total(c_auths(committee), self.used@.push(author));
                lemma_covered_weight_insert(
                    c_auths(committee),
                    self.used@,
                    author,
                    committee.spec_index_of(author),
                );
            } else {
                assert(absent_name(c_auths(committee), author));
                lemma_covered_weight_absent(c_auths(committee), self.used@, author);
                lemma_covered_weight_le_total(c_auths(committee), self.used@);
            }
        }
        self.weight = self.weight + committee.stake(&author);
        self.used.push(author);
        self.timeouts.push((author, timeout.signature));
        proof {
            assert forall|p: int, q: int| 0 <= p < q < self.used@.len() implies self.used@[p]
                != self.used@[q] by {
                if q == self.used@.len() - 1 {
                    assert(self.used@[p] == oldused[p]);
                }
            }
            assert(entries_views(self.timeouts@) =~= oldentries.push(
                (timeout@.author, timeout@.signature),
            ));
        }
        if self.weight >= committee.quorum_threshold() {
            let cert = TimeoutCert { round: timeout.round, timeouts: clone_entries(&self.timeouts) };
            proof {
                assert(cert@.timeouts =~= entries_views(self.timeouts@));
            }
            return Ok(Some(cert));
        }
        Ok(None)
    }
}

// ---------------------------------------------------------------------------
// No-vote aggregator
// ---------------------------------------------------------------------------
/// Aggregates the no-vote messages of one round into a no-vote certificate
/// once the contributing stake reaches the quorum threshold.
pub struct NoVoteAggregator {
    /// Stake of the contributing authors.
    pub weight: Stake,
    /// The `(author, signature)` pairs gathered so far, in insertion order.
    pub no_votes: Vec<(PublicKey, Vec<u8>)>,
    /// The distinct authors seen so far.
    pub used: Vec<PublicKey>,
}

impl NoVoteAggregator {
    /// Well-formedness over the committee.
    pub open spec fn wf(self, c: Committee) -> bool {
        &&& distinct_names_keys(self.used@)
        &&& self.weight == covered_weight(c.authorities@, self.used@)
    }

    pub fn new() -> (r: NoVoteAggregator)
        ensures
            r.used@.len() == 0,
            r.no_votes@.len() == 0,
            r.weight == 0,
            forall|c: Committee| r.wf(c),
    {
        let r = NoVoteAggregator { weight: 0, no_votes: Vec::new(), used: Vec::new() };
        proof {
            assert forall|c: Committee| r.wf(c) by {
                lemma_covered_empty(c.authorities@);
            }
        }
        r
    }

    /// Folds one no-vote message in; a repeated author is an
    /// `AuthorityReuse` error. Emits a no-vote certificate whenever the
    /// stake reaches the quorum threshold.
    pub fn append(&mut self, msg: NoVoteMsg, committee: &Committee) -> (r: DagResult<
        Option<NoVoteCert>,
    >)
        requires
            old(self).wf(*committee),
            committee.wf(),
        ensures
            final(self).wf(*committee),
            match r {
                Err(e) => *final(self) == *old(self) && e == DagError::AuthorityReuse(msg@.author)
                    && old(self).used@.contains(msg@.author),
                Ok(opt) => {
                    &&& !old(self).used@.contains(msg@.author)
                    &&& final(self).used@ == old(self).used@.push(msg@.author)
                    &&& final(self).weight == old(self).weight + committee.spec_stake(msg@.author)
                    &&& entries_views(final(self).no_votes@) == entries_views(
                        old(self).no_votes@,
                    ).push((msg@.author, msg@.signature))
                    &&& match opt {
                        Some(cert) => final(self).weight >= committee.spec_quorum_threshold()
                            && cert@.round == msg@.round && cert@.timeouts == entries_views(
                            final(self).no_votes@,
                        ),
                        None => final(self).weight < committee.spec_quorum_threshold(),
                    }
                },
            },
    {
        let author = msg.author;
        let nu = self.used.len();
        let mut i: usize = 0;
        while i < nu
            invariant
                *self == *old(self),
                old(self).wf(*committee),
                committee.wf(),
                nu == self.used@.len(),
                i <= nu,
                author == msg@.author,
                forall|j: int| 0 <= j < i ==> self.used@[j] != author,
            decreases nu - i,
        {
            if self.used[i] == author {
                assert(self.used@[i as int] == author);
                assert(self.used@.contains(author));
                return Err(DagError::AuthorityReuse(author));
            }
            i += 1;
        }
        assert(!self.used@.contains(author));
        let ghost oldused = self.used@;
        let ghost oldentries = entries_views(self.no_votes@);
        proof {
            if committee.spec_has(author) {
                lemma_covered_weight_le_total(c_auths(committee), self.used@.push(author));
                lemma_covered_weight_insert(
                    c_auths(committee),
                    self.used@,
                    author,
                    committee.spec_index_of(author),
                );
            } else {
                assert(absent_name(c_auths(committee), author));
                lemma_covered_weight_absent(c_auths(committee), self.used@, author);
                lemma_covered_weight_le_total(c_auths(committee), self.used@);
            }
        }
        self.weight = self.weight + committee.stake(&author);
        self.used.push(author);
        self.no_votes.push((author, msg.signature));
        proof {
            assert forall|p: int, q: int| 0 <= p < q < self.used@.len() implies self.used@[p]
                != self.used@[q] by {
                if q == self.used@.len() - 1 {
                    assert(self.used@[p] == oldused[p]);
                }
            }
            assert(entries_views(self.no_votes@) =~= oldentries.push(
                (msg@.author, msg@.signature),
            ));
        }
        if self.weight >= committee.quorum_threshold() {
            let cert = NoVoteCert { round: msg.round, no_votes: clone_entries(&self.no_votes) };
            proof {
                assert(cert@.timeouts =~= entries_views(self.no_votes@));
            }
            return Ok(Some(cert));
        }
        Ok(None)
    }
}

/// One append of the votes aggregator: `emitted` holds exactly when the
/// latch was clear and both thresholds were met, and the latch is set by
/// an emission and never cleared.
pub open spec fn votes_emission(pre_latched: bool, emitted: bool, post_latched: bool) -> bool {
    &&& emitted ==> !pre_latched && post_latched
    &&& !emitted ==> post_latched == pre_latched
}

/// Quorum monotonicity, the emit-once half: along any run of appends the
/// latch only ever rises, so at most one append emits a certificate.
/// `VotesAggregator::append` ensures every append satisfies
/// `votes_emission`, and that an emission happens exactly when the new
/// weights meet both thresholds.
pub proof fn lemma_votes_emit_once(
    l0: bool,
    e1: bool,
    l1: bool,
    l2: bool,
    e2: bool,
    l3: bool,
)
    requires
        votes_emission(l0, e1, l1),
        l1 ==> l2,
        votes_emission(l2, e2, l3),
    ensures
        !(e1 && e2),
{
}

/// One observed step of a votes-aggregation run: the latch and the two
/// weights before and after an append, and whether it emitted. Each step
/// of an actual run satisfies these clauses by `VotesAggregator::append`'s
/// contract: weights never decrease, an append emits exactly when the
/// latch was clear and both new weights meet their thresholds, and the
/// latch rises on emission and never clears. `st` holds the states (one
/// more than the steps), `em` the emission flags, `q` and `v` the two
/// thresholds; a state is `(latched, committee weight, clan weight)`.
pub open spec fn votes_trace_ok(
    st: Seq<(bool, int, int)>,
    em: Seq<bool>,
    q: int,
    v: int,
) -> bool {
    &&& st.len() == em.len() + 1
    &&& !st[0].0
    &&& forall|k: int|
        0 <= k < em.len() ==> ((#[trigger] st[k + 1]).1 >= st[k].1 && st[k + 1].2 >= st[k].2 && (
        em[k] <==> (!st[k].0 && st[k + 1].1 >= q && st[k + 1].2 >= v)) && (st[k + 1].0 == (st[k].0
            || em[k])))
}

/// Both thresholds are met after step `k`.
pub open spec fn votes_threshold_at(st: Seq<(bool, int, int)>, q: int, v: int, k: int) -> bool {
    st[k + 1].1 >= q && st[k + 1].2 >= v
}

/// The latch after step `k` records that some step up to `k` emitted.
proof fn lemma_votes_trace_latched(
    st: Seq<(bool, int, int)>,
    em: Seq<bool>,
    q: int,
    v: int,
    k: int,
)
    requires
        votes_trace_ok(st, em, q, v),
        0 <= k <= em.len(),
    ensures
        st[k].0 <==> exists|j: int| 0 <= j < k && em[j],
    decreases k,
{
    if k > 0 {
        lemma_votes_trace_latched(st, em, q, v, k - 1);
        assert(st[(k - 1) + 1].0 == (st[k - 1].0 || em[k - 1]));
        if st[k].0 {
            if em[k - 1] {
                assert(exists|j: int| 0 <= j < k && em[j]);
            } else {
                assert(st[k - 1].0);
                let j = choose|j: int| 0 <= j < k - 1 && em[j];
                assert(0 <= j < k && em[j]);
            }
        } else {
            assert(!st[k - 1].0 && !em[k - 1]);
            if exists|j: int| 0 <= j < k && em[j] {
                let j = choose|j: int| 0 <= j < k && em[j];
                assert(0 <= j < k - 1 && em[j]);
            }
        }
    }
}

/// Among the steps before `k` that meet both thresholds there is a first.
proof fn lemma_votes_trace_min_witness(
    st: Seq<(bool, int, int)>,
    em: Seq<bool>,
    q: int,
    v: int,
    k: int,
)
    requires
        votes_trace_ok(st, em, q, v),
        0 <= k <= em.len(),
        exists|j: int| 0 <= j < k && votes_threshold_at(st, q, v, j),
    ensures
        exists|j0: int|
            0 <= j0 < k && votes_threshold_at(st, q, v, j0) && forall|i: int|
                0 <= i < j0 ==> !votes_threshold_at(st, q, v, i),
    decreases k,
{
    if exists|j: int| 0 <= j < k - 1 && votes_threshold_at(st, q, v, j) {
        lemma_votes_trace_min_witness(st, em, q, v, k - 1);
        let j0 = choose|j0: int|
            0 <= j0 < k - 1 && votes_threshold_at(st, q, v, j0) && forall|i: int|
                0 <= i < j0 ==> !votes_threshold_at(st, q, v, i);
        assert(0 <= j0 < k && votes_threshold_at(st, q, v, j0));
    } else {
        let j = choose|j: int| 0 <= j < k && votes_threshold_at(st, q, v, j);
        assert(j == k - 1);
        assert(forall|i: int| 0 <= i < j ==> !votes_threshold_at(st, q, v, i));
    }
}

/// Quorum monotonicity over a whole run: along any sequence of appends
/// with distinct authors, the certificate is emitted at exactly the first
/// append whose accumulated weights meet both thresholds, and at no other.
pub proof fn lemma_votes_first_emission(
    st: Seq<(bool, int, int)>,
    em: Seq<bool>,
    q: int,
    v: int,
    k: int,
)
    requires
        votes_trace_ok(st, em, q, v),
        0 <= k < em.len(),
    ensures
        em[k] <==> (votes_threshold_at(st, q, v, k) && forall|i: int|
            0 <= i < k ==> !votes_threshold_at(st, q, v, i)),
{
    lemma_votes_trace_latched(st, em, q, v, k);
    if em[k] {
        assert(votes_threshold_at(st, q, v, k));
        assert(!st[k].0);
        assert forall|i: int| 0 <= i < k implies !votes_threshold_at(st, q, v, i) by {
            if votes_threshold_at(st, q, v, i) {
                lemma_votes_trace_min_witness(st, em, q, v, k);
                let j0 = choose|j0: int|
                    0 <= j0 < k && votes_threshold_at(st, q, v, j0) && forall|i2: int|
                        0 <= i2 < j0 ==> !votes_threshold_at(st, q, v, i2);
                lemma_votes_trace_latched(st, em, q, v, j0);
                assert(!st[j0].0) by {
                    if st[j0].0 {
                        let e = choose|e: int| 0 <= e < j0 && em[e];
                        assert(votes_threshold_at(st, q, v, e));
                    }
                }
                assert(em[j0]);
                assert(st[k].0) by {
                    lemma_votes_trace_latched(st, em, q, v, k);
                    assert(0 <= j0 < k && em[j0]);
                }
            }
        }
    } else {
        if votes_threshold_at(st, q, v, k) && (forall|i: int|
            0 <= i < k ==> !votes_threshold_at(st, q, v, i)) {
            assert(!st[k].0) by {
                if st[k].0 {
                    let e = choose|e: int| 0 <= e < k && em[e];
                    assert(votes_threshold_at(st, q, v, e));
                }
            }
            assert(em[k]);
        }
    }
}

} // verus!
