//! The core: validates and applies headers, votes, timeouts, no-votes
//! and certificates, and drives the per-round state.
//!
//! The core never emits two votes for one round: a vote is emitted only
//! for a round strictly above `last_voted_round`, which the emission then
//! raises to that round.

use crate::aggregators::{
    CertificatesAggregator, NoVoteAggregator, TimeoutAggregator, VotesAggregator,
};
use crate::codec::{encode_header_type, lemma_dec_header_type};
use crate::committee::{Clan, Committee};
use crate::error::{DagError, DagResult};
use crate::messages::{
    Certificate, Header, HeaderType, NoVoteCert, NoVoteMsg, Timeout, TimeoutCert, Vote,
};
use crate::store::Store;
use crate::synchronizer::{header_store_wf, ParentsOutcome, Synchronizer};
use crate::types::{Digest, PublicKey, Round};
use crate::validation::{spec_certificate_valid, spec_timeout_cert_valid, validate_certificate, verify_timeout_cert_parts};
use crate::waiter::{CertificateWaiter, HeaderWaiter};
use vstd::prelude::*;

verus! {

/// What handling a header produced.
pub enum HeaderOutcome {
    /// The header waits for missing parents.
    Parked,
    /// The header was stored and earned this node's vote.
    Voted(Vote),
    /// The header was stored without a vote.
    Stored,
}

/// What handling a certificate produced.
pub enum CertificateOutcome {
    /// The certificate waits for missing ancestors.
    Parked,
    /// The certificate was accepted into the round's aggregation.
    Accepted,
    /// The certificate completed its round: the core advanced and hands
    /// the round's certificates to the proposer as parents.
    RoundAdvanced(Vec<Certificate>),
}

/// Everything of the core is unchanged but possibly the four aggregator
/// maps.
pub open spec fn eq_except_aggregators(a: Core, b: Core) -> bool {
    &&& a.name == b.name
    &&& a.committee == b.committee
    &&& a.clan == b.clan
    &&& a.gc_depth == b.gc_depth
    &&& a.current_round == b.current_round
    &&& a.last_voted_round == b.last_voted_round
    &&& a.gc_round == b.gc_round
    &&& a.leaders_per_round == b.leaders_per_round
    &&& a.header_store == b.header_store
    &&& a.synchronizer == b.synchronizer
    &&& a.header_waiter == b.header_waiter
    &&& a.certificate_waiter == b.certificate_waiter
}

/// The four aggregator maps are unchanged, as views.
pub open spec fn same_aggregators(a: Core, b: Core) -> bool {
    &&& a.votes_aggregators@ == b.votes_aggregators@
    &&& a.certificates_aggregators@ == b.certificates_aggregators@
    &&& a.timeout_aggregators@ == b.timeout_aggregators@
    &&& a.no_vote_aggregators@ == b.no_vote_aggregators@
}

/// `i` is the first vote-aggregation entry for `key`.
pub open spec fn votes_key_at(
    s: Seq<((Round, PublicKey), VotesAggregator)>,
    key: (Round, PublicKey),
    i: int,
) -> bool {
    &&& 0 <= i < s.len()
    &&& s[i].0 == key
    &&& forall|j: int| 0 <= j < i ==> s[j].0 != key
}

/// Some entry aggregates votes for `key`.
pub open spec fn has_votes_key(
    s: Seq<((Round, PublicKey), VotesAggregator)>,
    key: (Round, PublicKey),
) -> bool {
    exists|i: int| votes_key_at(s, key, i)
}

/// The first vote-aggregation entry for `key`.
pub open spec fn votes_index_of(
    s: Seq<((Round, PublicKey), VotesAggregator)>,
    key: (Round, PublicKey),
) -> int {
    choose|i: int| votes_key_at(s, key, i)
}

/// The authors already aggregated for `key`: those of its entry, or none
/// when the scope is fresh.
pub open spec fn votes_pre_used(
    s: Seq<((Round, PublicKey), VotesAggregator)>,
    key: (Round, PublicKey),
) -> Seq<PublicKey> {
    if has_votes_key(s, key) {
        s[votes_index_of(s, key)].1.used@
    } else {
        Seq::empty()
    }
}

/// The committee weight already aggregated for `key`.
pub open spec fn votes_pre_cw(
    s: Seq<((Round, PublicKey), VotesAggregator)>,
    key: (Round, PublicKey),
) -> int {
    if has_votes_key(s, key) {
        s[votes_index_of(s, key)].1.committee_weight as int
    } else {
        0
    }
}

/// The clan weight already aggregated for `key`.
pub open spec fn votes_pre_clanw(
    s: Seq<((Round, PublicKey), VotesAggregator)>,
    key: (Round, PublicKey),
) -> int {
    if has_votes_key(s, key) {
        s[votes_index_of(s, key)].1.clan_weight as int
    } else {
        0
    }
}

/// Whether the scope for `key` already emitted its certificate.
pub open spec fn votes_pre_latched(
    s: Seq<((Round, PublicKey), VotesAggregator)>,
    key: (Round, PublicKey),
) -> bool {
    if has_votes_key(s, key) {
        s[votes_index_of(s, key)].1.latched
    } else {
        false
    }
}

/// `i` is the first certificate-aggregation entry for `round`.
pub open spec fn certs_key_at(
    s: Seq<(Round, CertificatesAggregator)>,
    key: Round,
    i: int,
) -> bool {
    &&& 0 <= i < s.len()
    &&& s[i].0 == key
    &&& forall|j: int| 0 <= j < i ==> s[j].0 != key
}

/// Some entry aggregates certificates for `round`.
pub open spec fn has_certs_key(s: Seq<(Round, CertificatesAggregator)>, key: Round) -> bool {
    exists|i: int| certs_key_at(s, key, i)
}

/// The first certificate-aggregation entry for `round`.
pub open spec fn certs_index_of(s: Seq<(Round, CertificatesAggregator)>, key: Round) -> int {
    choose|i: int| certs_key_at(s, key, i)
}

/// The origins already aggregated for `round`.
pub open spec fn certs_pre_used(s: Seq<(Round, CertificatesAggregator)>, key: Round) -> Seq<
    PublicKey,
> {
    if has_certs_key(s, key) {
        s[certs_index_of(s, key)].1.used@
    } else {
        Seq::empty()
    }
}

/// The stake already aggregated for `round`.
pub open spec fn certs_pre_weight(s: Seq<(Round, CertificatesAggregator)>, key: Round) -> int {
    if has_certs_key(s, key) {
        s[certs_index_of(s, key)].1.weight as int
    } else {
        0
    }
}

/// The certificates gathered for `round` since the last emission.
pub open spec fn certs_pre_certs(s: Seq<(Round, CertificatesAggregator)>, key: Round) -> Seq<
    Certificate,
> {
    if has_certs_key(s, key) {
        s[certs_index_of(s, key)].1.certificates@
    } else {
        Seq::empty()
    }
}

/// `i` is the first timeout-aggregation entry for `round`.
pub open spec fn tmo_key_at(s: Seq<(Round, TimeoutAggregator)>, key: Round, i: int) -> bool {
    &&& 0 <= i < s.len()
    &&& s[i].0 == key
    &&& forall|j: int| 0 <= j < i ==> s[j].0 != key
}

/// Some entry aggregates timeouts for `round`.
pub open spec fn has_tmo_key(s: Seq<(Round, TimeoutAggregator)>, key: Round) -> bool {
    exists|i: int| tmo_key_at(s, key, i)
}

/// The first timeout-aggregation entry for `round`.
pub open spec fn tmo_index_of(s: Seq<(Round, TimeoutAggregator)>, key: Round) -> int {
    choose|i: int| tmo_key_at(s, key, i)
}

/// The authors whose timeouts for `round` were already counted.
pub open spec fn tmo_pre_used(s: Seq<(Round, TimeoutAggregator)>, key: Round) -> Seq<PublicKey> {
    if has_tmo_key(s, key) {
        s[tmo_index_of(s, key)].1.used@
    } else {
        Seq::empty()
    }
}

/// The stake of the timeouts already counted for `round`.
pub open spec fn tmo_pre_weight(s: Seq<(Round, TimeoutAggregator)>, key: Round) -> int {
    if has_tmo_key(s, key) {
        s[tmo_index_of(s, key)].1.weight as int
    } else {
        0
    }
}

/// The `(author, signature)` pairs already gathered for `round`.
pub open spec fn tmo_pre_entries(s: Seq<(Round, TimeoutAggregator)>, key: Round) -> Seq<
    (PublicKey, Seq<u8>),
> {
    if has_tmo_key(s, key) {
        crate::aggregators::entries_views(s[tmo_index_of(s, key)].1.timeouts@)
    } else {
        Seq::empty()
    }
}

/// `i` is the first no-vote-aggregation entry for `round`.
pub open spec fn nv_key_at(s: Seq<(Round, NoVoteAggregator)>, key: Round, i: int) -> bool {
    &&& 0 <= i < s.len()
    &&& s[i].0 == key
    &&& forall|j: int| 0 <= j < i ==> s[j].0 != key
}

/// Some entry aggregates no-vote messages for `round`.
pub open spec fn has_nv_key(s: Seq<(Round, NoVoteAggregator)>, key: Round) -> bool {
    exists|i: int| nv_key_at(s, key, i)
}

/// The first no-vote-aggregation entry for `round`.
pub open spec fn nv_index_of(s: Seq<(Round, NoVoteAggregator)>, key: Round) -> int {
    choose|i: int| nv_key_at(s, key, i)
}

/// The authors whose no-vote messages for `round` were already counted.
pub open spec fn nv_pre_used(s: Seq<(Round, NoVoteAggregator)>, key: Round) -> Seq<PublicKey> {
    if has_nv_key(s, key) {
        s[nv_index_of(s, key)].1.used@
    } else {
        Seq::empty()
    }
}

/// The stake of the no-vote messages already counted for `round`.
pub open spec fn nv_pre_weight(s: Seq<(Round, NoVoteAggregator)>, key: Round) -> int {
    if has_nv_key(s, key) {
        s[nv_index_of(s, key)].1.weight as int
    } else {
        0
    }
}

/// The `(author, signature)` pairs already gathered for `round`.
pub open spec fn nv_pre_entries(s: Seq<(Round, NoVoteAggregator)>, key: Round) -> Seq<
    (PublicKey, Seq<u8>),
> {
    if has_nv_key(s, key) {
        crate::aggregators::entries_views(s[nv_index_of(s, key)].1.no_votes@)
    } else {
        Seq::empty()
    }
}

/// A non-initial header's resolved parents carry a quorum: authors are
/// pairwise distinct and their stake reaches the quorum threshold.
pub open spec fn parents_quorum_ok(c: Committee, authors: Seq<PublicKey>) -> bool {
    &&& forall|p: int, q: int| 0 <= p < q < authors.len() ==> authors[p] != authors[q]
    &&& crate::committee::covered_weight(c.authorities@, authors) >= c.spec_quorum_threshold()
}

/// The core state of a primary.
pub struct Core {
    /// The public key of this primary.
    pub name: PublicKey,
    /// The committee.
    pub committee: Committee,
    /// This node's clan.
    pub clan: Clan,
    /// Rounds below `current_round - gc_depth` are collected.
    pub gc_depth: Round,
    /// The round this node currently works in.
    pub current_round: Round,
    /// The highest round this node voted in.
    pub last_voted_round: Round,
    /// The garbage-collection horizon.
    pub gc_round: Round,
    /// Designated leaders per round.
    pub leaders_per_round: usize,
    /// Persisted headers, keyed by header id.
    pub header_store: Store,
    /// Vote aggregation per `(round, origin)`.
    pub votes_aggregators: Vec<((Round, PublicKey), VotesAggregator)>,
    /// Certificate aggregation per round.
    pub certificates_aggregators: Vec<(Round, CertificatesAggregator)>,
    /// Timeout aggregation per round.
    pub timeout_aggregators: Vec<(Round, TimeoutAggregator)>,
    /// No-vote aggregation per round.
    pub no_vote_aggregators: Vec<(Round, NoVoteAggregator)>,
    /// Availability decisions.
    pub synchronizer: Synchronizer,
    /// Headers parked on missing parents.
    pub header_waiter: HeaderWaiter,
    /// Certificates parked on missing ancestors.
    pub certificate_waiter: CertificateWaiter,
}

impl Core {
    /// Well-formedness of the core state.
    pub open spec fn wf(self) -> bool {
        &&& self.committee.wf()
        &&& self.clan.wf(self.committee)
        &&& self.synchronizer.wf()
        &&& self.header_store.wf()
        &&& header_store_wf(self.header_store)
        &&& 1 <= self.leaders_per_round
        &&& self.committee.authorities@.len() <= usize::MAX - 127
        &&& forall|i: int|
            0 <= i < self.votes_aggregators@.len()
                ==> (#[trigger] self.votes_aggregators@[i].1).wf(self.committee, self.clan)
        &&& forall|i: int|
            0 <= i < self.certificates_aggregators@.len()
                ==> (#[trigger] self.certificates_aggregators@[i].1).wf(self.committee)
        &&& forall|i: int|
            0 <= i < self.timeout_aggregators@.len()
                ==> (#[trigger] self.timeout_aggregators@[i].1).wf(self.committee)
        &&& forall|i: int|
            0 <= i < self.no_vote_aggregators@.len()
                ==> (#[trigger] self.no_vote_aggregators@[i].1).wf(self.committee)
    }

    /// A fresh core at round 1.
    pub fn new(
        name: PublicKey,
        committee: Committee,
        clan: Clan,
        gc_depth: Round,
        leaders_per_round: usize,
    ) -> (r: Core)
        requires
            committee.wf(),
            clan.wf(committee),
            1 <= leaders_per_round,
            committee.authorities@.len() <= usize::MAX - 127,
        ensures
            r.wf(),
            r.name == name,
            r.current_round == 1,
            r.last_voted_round == 0,
            r.gc_round == 0,
    {
        let synchronizer = Synchronizer::new(name, &committee);
        Core {
            name,
            committee,
            clan,
            gc_depth,
            current_round: 1,
            last_voted_round: 0,
            gc_round: 0,
            leaders_per_round,
            header_store: Store::new(),
            votes_aggregators: Vec::new(),
            certificates_aggregators: Vec::new(),
            timeout_aggregators: Vec::new(),
            no_vote_aggregators: Vec::new(),
            synchronizer,
            header_waiter: HeaderWaiter::new(),
            certificate_waiter: CertificateWaiter::new(),
        }
    }

    /// Handles an inbound header: reject stale or malformed ones, resolve
    /// parents, persist, and vote at most once per round.
    /// Handles an inbound header: rejects stale, unknown-author or
    /// malformed ones, resolves the parents, checks the parent quorum and
    /// the leader-or-timeout rule, persists the header, and votes at most
    /// once per round. Each error happens if and only if its cause holds;
    /// a header whose previous-round leaders are all among its parents,
    /// or which carries a valid timeout certificate for that round, is
    /// accepted.
    pub fn process_header(&mut self, header: Header) -> (r: DagResult<HeaderOutcome>)
        requires
            old(self).wf(),
        ensures
            final(self).wf(),
            final(self).last_voted_round >= old(self).last_voted_round,
            final(self).current_round == old(self).current_round,
            final(self).gc_round == old(self).gc_round,
            match r {
                Err(DagError::StaleRound(rr)) => rr == header@.round && header@.round < old(
                    self,
                ).gc_round && eq_except_aggregators(*final(self), *old(self)) && same_aggregators(
                    *final(self),
                    *old(self),
                ),
                Err(DagError::UnknownAuthority(a)) => a == header@.author && header@.round >= old(
                    self,
                ).gc_round && !old(self).committee.spec_has(header@.author)
                    && eq_except_aggregators(*final(self), *old(self)) && same_aggregators(
                    *final(self),
                    *old(self),
                ),
                Err(DagError::MalformedHeader(dd)) => ({
                    let authors = old(self).synchronizer.resolved_authors(
                        old(self).header_store,
                        header@.parents,
                    );
                    let missing = old(self).synchronizer.missing_of(
                        old(self).header_store,
                        header@.parents,
                    );
                    &&& dd == header@.id
                    &&& header@.round >= old(self).gc_round
                    &&& old(self).committee.spec_has(header@.author)
                    &&& (header@.id != crate::messages::spec_header_digest(header@) || (
                    header@.round > 1 && missing.len() == 0 && !parents_quorum_ok(
                        old(self).committee,
                        authors,
                    )))
                    &&& eq_except_aggregators(*final(self), *old(self))
                    &&& same_aggregators(*final(self), *old(self))
                }),
                Err(DagError::InvalidSignature) => ({
                    let authors = old(self).synchronizer.resolved_authors(
                        old(self).header_store,
                        header@.parents,
                    );
                    let missing = old(self).synchronizer.missing_of(
                        old(self).header_store,
                        header@.parents,
                    );
                    &&& header@.round >= old(self).gc_round
                    &&& old(self).committee.spec_has(header@.author)
                    &&& header@.id == crate::messages::spec_header_digest(header@)
                    &&& header@.round > 1
                    &&& missing.len() == 0
                    &&& parents_quorum_ok(old(self).committee, authors)
                    &&& !crate::aggregators::leaders_present(
                        old(self).committee,
                        old(self).leaders_per_round as int,
                        (header@.round - 1) as int,
                        authors,
                    )
                    &&& !spec_timeout_cert_valid(
                        old(self).committee,
                        (header@.round - 1) as u64,
                        header@.timeout_cert,
                    )
                    &&& eq_except_aggregators(*final(self), *old(self))
                    &&& same_aggregators(*final(self), *old(self))
                }),
                Err(_) => false,
                Ok(HeaderOutcome::Parked) => ({
                    let missing = old(self).synchronizer.missing_of(
                        old(self).header_store,
                        header@.parents,
                    );
                    &&& header@.round >= old(self).gc_round
                    &&& old(self).committee.spec_has(header@.author)
                    &&& header@.id == crate::messages::spec_header_digest(header@)
                    &&& missing.len() > 0
                    &&& final(self).header_waiter.pending@.len() == old(
                        self,
                    ).header_waiter.pending@.len() + 1
                    &&& final(self).header_waiter.pending@.subrange(
                        0,
                        old(self).header_waiter.pending@.len() as int,
                    ) == old(self).header_waiter.pending@
                    &&& final(self).header_waiter.pending@.last().0@ == missing
                    &&& final(self).header_waiter.pending@.last().1 == HeaderType::Header(header)
                    &&& final(self).header_store == old(self).header_store
                    &&& final(self).certificate_waiter == old(self).certificate_waiter
                    &&& final(self).synchronizer == old(self).synchronizer
                    &&& final(self).last_voted_round == old(self).last_voted_round
                    &&& same_aggregators(*final(self), *old(self))
                }),
                Ok(outcome) => ({
                    let authors = old(self).synchronizer.resolved_authors(
                        old(self).header_store,
                        header@.parents,
                    );
                    let missing = old(self).synchronizer.missing_of(
                        old(self).header_store,
                        header@.parents,
                    );
                    &&& header@.round >= old(self).gc_round
                    &&& old(self).committee.spec_has(header@.author)
                    &&& header@.id == crate::messages::spec_header_digest(header@)
                    &&& missing.len() == 0
                    &&& (header@.round > 1 ==> parents_quorum_ok(old(self).committee, authors) && (
                    crate::aggregators::leaders_present(
                        old(self).committee,
                        old(self).leaders_per_round as int,
                        (header@.round - 1) as int,
                        authors,
                    ) || spec_timeout_cert_valid(
                        old(self).committee,
                        (header@.round - 1) as u64,
                        header@.timeout_cert,
                    )))
                    &&& final(self).header_store.spec_contains(header@.id)
                    &&& final(self).header_store.spec_value(header@.id)
                        == crate::codec::enc_header_type(HeaderType::Header(header))
                    &&& forall|dd: Digest|
                        dd != header@.id ==> (final(self).header_store.spec_contains(dd) <==> old(
                            self,
                        ).header_store.spec_contains(dd))
                    &&& forall|dd: Digest|
                        dd != header@.id && old(self).header_store.spec_contains(dd) ==> final(self).header_store.spec_value(dd) == old(self).header_store.spec_value(dd)
                    &&& final(self).header_waiter == old(self).header_waiter
                    &&& final(self).certificate_waiter == old(self).certificate_waiter
                    &&& final(self).synchronizer == old(self).synchronizer
                    &&& same_aggregators(*final(self), *old(self))
                    &&& match outcome {
                        HeaderOutcome::Voted(v) => {
                            &&& v@.round == header@.round
                            &&& v@.round > old(self).last_voted_round
                            &&& final(self).last_voted_round == v@.round
                            &&& v@.origin == header@.author
                            &&& v@.id == header@.id
                            &&& v@.author == old(self).name
                        },
                        HeaderOutcome::Stored => final(self).last_voted_round == old(
                            self,
                        ).last_voted_round && header@.round <= old(self).last_voted_round,
                        HeaderOutcome::Parked => false,
                    }
                }),
            },
    {
        // Stale rounds are rejected below the garbage-collection horizon.
        if header.round < self.gc_round {
            return Err(DagError::StaleRound(header.round));
        }
        // The author must be a committee member.
        match self.committee.index_of(&header.author) {
            Some(_) => {},
            None => {
                return Err(DagError::UnknownAuthority(header.author));
            },
        };
        // The id must be the canonical digest of the contents.
        let d = header.digest();
        if !(d == header.id) {
            return Err(DagError::MalformedHeader(header.id));
        }
        let round = header.round;
        let id = header.id;
        let ghost hv = header@;
        let ghost authors = self.synchronizer.resolved_authors(self.header_store, hv.parents);
        let ht = HeaderType::Header(header);
        // Resolve the parents; park the header if any is missing.
        match self.synchronizer.get_parents(&self.header_store, &ht) {
            ParentsOutcome::Missing(m) => {
                self.header_waiter.park(m, ht);
                return Ok(HeaderOutcome::Parked);
            },
            ParentsOutcome::Ready(parents) => {
                proof {
                    assert(parent_authors(parents@) =~= authors) by {
                        assert forall|j: int| 0 <= j < parents@.len() implies parent_authors(
                            parents@,
                        )[j] == authors[j] by {
                            assert(crate::synchronizer::parent_resolves(
                                self.synchronizer,
                                self.header_store,
                                hv.parents[j],
                                parents@[j],
                            ));
                            assert(parent_authors(parents@)[j]
                                == crate::synchronizer::view_author(
                                crate::codec::header_type_view(parents@[j]),
                            )) by {
                                match parents@[j] {
                                    HeaderType::Header(hh) => {},
                                    HeaderType::HeaderInfo(hi) => {},
                                }
                            }
                        }
                    }
                }
                if round > 1 {
                    // Parents must carry a quorum of stake, from distinct
                    // authorities.
                    let q = self.committee.quorum_threshold();
                    match parent_stake(&self.committee, &parents) {
                        Some(stake) => {
                            if stake < q {
                                proof {
                                    assert(!parents_quorum_ok(self.committee, authors));
                                }
                                return Err(DagError::MalformedHeader(id));
                            }
                        },
                        None => {
                            proof {
                                assert(!parents_quorum_ok(self.committee, authors));
                            }
                            return Err(DagError::MalformedHeader(id));
                        },
                    }
                    assert(parents_quorum_ok(self.committee, authors));
                    // If a leader of the previous round is missing from
                    // the parents, the header must carry a valid timeout
                    // certificate for that round.
                    let leaders = self.committee.leader_list(self.leaders_per_round, round - 1);
                    let lp = all_leaders_present(&leaders, &parents);
                    proof {
                        assert(lp == crate::aggregators::leaders_present(
                            self.committee,
                            self.leaders_per_round as int,
                            (round - 1) as int,
                            authors,
                        )) by {
                            if lp {
                                assert forall|t: int|
                                    0 <= t < self.leaders_per_round implies #[trigger] authors.contains(
                                    self.committee.spec_leader(
                                        self.leaders_per_round as int,
                                        (round - 1) as int,
                                        t,
                                    ),
                                ) by {
                                    assert(parent_authors(parents@).contains(leaders@[t]));
                                }
                            } else {
                                let t = choose|t: int|
                                    0 <= t < leaders@.len() && !parent_authors(
                                        parents@,
                                    ).contains(leaders@[t]);
                                assert(!authors.contains(
                                    self.committee.spec_leader(
                                        self.leaders_per_round as int,
                                        (round - 1) as int,
                                        t,
                                    ),
                                ));
                            }
                        }
                    }
                    if !lp {
                        let ok = match &ht {
                            HeaderType::Header(h) => {
                                let v = verify_timeout_cert_parts(
                                    &self.committee,
                                    round - 1,
                                    h.timeout_cert.round,
                                    &h.timeout_cert.timeouts,
                                );
                                proof {
                                    assert(crate::codec::ev(h.timeout_cert.timeouts@)
                                        =~= hv.timeout_cert.timeouts);
                                    assert((crate::messages::TimeoutCertView {
                                        round: h.timeout_cert.round,
                                        timeouts: crate::codec::ev(h.timeout_cert.timeouts@),
                                    }) == hv.timeout_cert);
                                }
                                v
                            },
                            HeaderType::HeaderInfo(_) => false,
                        };
                        proof {
                            assert(ok == spec_timeout_cert_valid(
                                self.committee,
                                (round - 1) as u64,
                                hv.timeout_cert,
                            ));
                        }
                        if !ok {
                            return Err(DagError::InvalidSignature);
                        }
                    }
                }
            },
        }
        // Persist the header under its id.
        let bytes = encode_header_type(&ht);
        proof {
            crate::codec::lemma_header_type_bounded(ht);
            lemma_dec_header_type(ht);
        }
        self.header_store.write(id, bytes);
        proof {
            let hs = self.header_store;
            assert forall|i: int| 0 <= i < hs.entries@.len() implies crate::synchronizer::decodes_fully(
                #[trigger] hs.entries@[i].1@,
            ) by {
                let e = hs.entries@[i];
                if e.0 == id {
                    assert(hs.spec_value(id) == e.1@) by {
                        let w = choose|w: int|
                            0 <= w < hs.entries@.len() && hs.entries@[w].0 == id;
                        assert(w == i);
                    }
                    assert(crate::codec::dec_header_type(e.1@, 0) == Some(
                        (crate::codec::header_type_view(ht), e.1@.len() as int),
                    ));
                } else {
                    assert(hs.spec_contains(e.0)) by {
                        assert(hs.entries@[i].0 == e.0);
                    }
                    assert(hs.spec_value(e.0) == e.1@) by {
                        let w = choose|w: int|
                            0 <= w < hs.entries@.len() && hs.entries@[w].0 == e.0;
                        assert(w == i);
                    }
                    assert(old(self).header_store.spec_contains(e.0));
                    assert(hs.spec_value(e.0) == old(self).header_store.spec_value(e.0));
                    crate::synchronizer::lemma_stored_decodes(old(self).header_store, e.0);
                }
            }
        }
        // Vote at most once per round.
        if round > self.last_voted_round {
            self.last_voted_round = round;
            let vote = match &ht {
                HeaderType::Header(h) => Vote::new(h, self.name, Vec::new()),
                HeaderType::HeaderInfo(_) => {
                    proof {
                        assert(false);
                    }
                    Vote {
                        id: Digest::zero(),
                        round: 0,
                        origin: self.name,
                        author: self.name,
                        signature: Vec::new(),
                    }
                },
            };
            Ok(HeaderOutcome::Voted(vote))
        } else {
            Ok(HeaderOutcome::Stored)
        }
    }

    /// Feeds a vote to the aggregator of its `(round, origin)` scope; an
    /// emitted certificate is returned for broadcast and loop-back. The
    /// contract mirrors the scope's aggregator exactly: errors happen if
    /// and only if the vote is stale, its author unknown, or its author
    /// already counted; otherwise the scope's entry (fresh scopes start
    /// empty) absorbs the vote and emits at exactly the threshold.
    pub fn process_vote(&mut self, vote: Vote) -> (r: DagResult<Option<Certificate>>)
        requires
            old(self).wf(),
        ensures
            final(self).wf(),
            final(self).last_voted_round == old(self).last_voted_round,
            final(self).current_round == old(self).current_round,
            final(self).gc_round == old(self).gc_round,
            match r {
                Err(DagError::StaleRound(rr)) => rr == vote@.round && vote@.round < old(
                    self,
                ).gc_round && eq_except_aggregators(*final(self), *old(self)) && same_aggregators(
                    *final(self),
                    *old(self),
                ),
                Err(DagError::UnknownAuthority(a)) => a == vote@.author && vote@.round >= old(
                    self,
                ).gc_round && !old(self).committee.spec_has(vote@.author) && eq_except_aggregators(
                    *final(self),
                    *old(self),
                ) && same_aggregators(*final(self), *old(self)),
                Err(DagError::AuthorityReuse(a)) => a == vote@.author && vote@.round >= old(
                    self,
                ).gc_round && old(self).committee.spec_has(vote@.author) && votes_pre_used(
                    old(self).votes_aggregators@,
                    (vote@.round, vote@.origin),
                ).contains(vote@.author) && eq_except_aggregators(*final(self), *old(self))
                    && same_aggregators(*final(self), *old(self)),
                Err(_) => false,
                Ok(opt) => ({
                    let key = (vote@.round, vote@.origin);
                    let pre = old(self).votes_aggregators@;
                    let ki = if has_votes_key(pre, key) {
                        votes_index_of(pre, key)
                    } else {
                        pre.len() as int
                    };
                    let e = final(self).votes_aggregators@[ki];
                    &&& vote@.round >= old(self).gc_round
                    &&& old(self).committee.spec_has(vote@.author)
                    &&& !votes_pre_used(pre, key).contains(vote@.author)
                    &&& (has_votes_key(pre, key) ==> final(self).votes_aggregators@ == pre.update(
                        ki,
                        e,
                    ))
                    &&& (!has_votes_key(pre, key) ==> final(self).votes_aggregators@ == pre.push(
                        e,
                    ))
                    &&& e.0 == key
                    &&& e.1.used@ == votes_pre_used(pre, key).push(vote@.author)
                    &&& e.1.committee_weight == votes_pre_cw(pre, key)
                        + old(self).committee.spec_stake(vote@.author)
                    &&& e.1.clan_weight == votes_pre_clanw(pre, key) + old(self).clan.spec_stake(
                        vote@.author,
                    )
                    &&& e.1.latched == (votes_pre_latched(pre, key) || opt is Some)
                    &&& match opt {
                        Some(cert) => !votes_pre_latched(pre, key) && e.1.committee_weight
                            >= old(self).committee.spec_quorum_threshold() && e.1.clan_weight
                            >= old(self).clan.spec_validity_threshold() && cert@ == (
                        crate::messages::CertificateView {
                            header_id: vote@.id,
                            round: vote@.round,
                            origin: vote@.origin,
                            bitmap: e.1.pk_bit_vec@,
                            agg_signature: e.1.agg_sign@,
                        }),
                        None => votes_pre_latched(pre, key) || e.1.committee_weight < old(
                            self,
                        ).committee.spec_quorum_threshold() || e.1.clan_weight < old(
                            self,
                        ).clan.spec_validity_threshold(),
                    }
                }),
            },
    {
        if vote.round < self.gc_round {
            return Err(DagError::StaleRound(vote.round));
        }
        let key = (vote.round, vote.origin);
        let ghost vround = vote@.round;
        let ghost vorigin = vote@.origin;
        let ghost vauthor = vote@.author;
        let n = self.votes_aggregators.len();
        let mut ix: usize = n;
        let mut i: usize = 0;
        while i < n
            invariant
                *self == *old(self),
                old(self).wf(),
                n == self.votes_aggregators@.len(),
                i <= n,
                ix <= n,
                key == (vround, vorigin),
                ix == n || i == n,
                ix == n ==> forall|j: int| 0 <= j < i ==> self.votes_aggregators@[j].0 != key,
                ix < n ==> votes_key_at(self.votes_aggregators@, key, ix as int),
            decreases n - i,
        {
            if self.votes_aggregators[i].0.0 == key.0 && self.votes_aggregators[i].0.1 == key.1 {
                assert(self.votes_aggregators@[i as int].0 == key);
                assert(forall|j: int| 0 <= j < i ==> self.votes_aggregators@[j].0 != key);
                ix = i;
                i = n;
            } else {
                assert(self.votes_aggregators@[i as int].0 != key);
                i += 1;
            }
        }
        proof {
            if ix < n {
                assert(has_votes_key(old(self).votes_aggregators@, key));
                assert(votes_index_of(old(self).votes_aggregators@, key) == ix) by {
                    let w = votes_index_of(old(self).votes_aggregators@, key);
                    assert(votes_key_at(old(self).votes_aggregators@, key, w));
                    assert(votes_key_at(old(self).votes_aggregators@, key, ix as int));
                }
            } else {
                assert(!has_votes_key(old(self).votes_aggregators@, key)) by {
                    if has_votes_key(old(self).votes_aggregators@, key) {
                        let w = votes_index_of(old(self).votes_aggregators@, key);
                        assert(votes_key_at(old(self).votes_aggregators@, key, w));
                    }
                }
            }
        }
        let mut entry = if ix < self.votes_aggregators.len() {
            let e = self.votes_aggregators.remove(ix);
            proof {
                assert forall|j: int| 0 <= j < self.votes_aggregators@.len() implies (
                #[trigger] self.votes_aggregators@[j].1).wf(self.committee, self.clan) by {
                    if j < ix {
                        assert(self.votes_aggregators@[j] == old(self).votes_aggregators@[j]);
                    } else {
                        assert(self.votes_aggregators@[j] == old(self).votes_aggregators@[j + 1]);
                    }
                }
            }
            e
        } else {
            (key, VotesAggregator::new(&self.committee, &self.clan))
        };
        let ghost pre = old(self).votes_aggregators@;
        proof {
            assert(entry.0 == key);
            assert(entry.1.used@ == votes_pre_used(pre, key));
            assert(entry.1.committee_weight == votes_pre_cw(pre, key));
            assert(entry.1.clan_weight == votes_pre_clanw(pre, key));
            assert(entry.1.latched == votes_pre_latched(pre, key));
        }
        let result = entry.1.append(vote, &self.committee, &self.clan);
        match result {
            Ok(opt) => {
                let ghost pre_ins = self.votes_aggregators@;
                if ix < n {
                    self.votes_aggregators.insert(ix, entry);
                    proof {
                        assert(self.votes_aggregators@ =~= pre.update(
                            ix as int,
                            self.votes_aggregators@[ix as int],
                        ));
                    }
                } else {
                    self.votes_aggregators.push(entry);
                    proof {
                        assert(self.votes_aggregators@ =~= pre.push(
                            self.votes_aggregators@[n as int],
                        ));
                    }
                }
                proof {
                    assert forall|j: int| 0 <= j < self.votes_aggregators@.len() implies (
                    #[trigger] self.votes_aggregators@[j].1).wf(self.committee, self.clan) by {
                        if j != ix {
                            assert(self.votes_aggregators@[j] == pre[j]);
                        }
                    }
                    if ix < n {
                        assert(self.votes_aggregators@[ix as int] == entry);
                    } else {
                        assert(self.votes_aggregators@[n as int] == entry);
                    }
                    let ki = if has_votes_key(pre, key) {
                        votes_index_of(pre, key)
                    } else {
                        pre.len() as int
                    };
                    assert(ki == ix as int || (ix == n && ki == n as int));
                    let e = self.votes_aggregators@[ki];
                    assert(e == entry);
                    assert(e.0 == key);
                    assert(e.1.used@ == votes_pre_used(pre, key).push(vauthor));
                    assert(e.1.committee_weight == votes_pre_cw(pre, key)
                        + self.committee.spec_stake(vauthor));
                    assert(e.1.clan_weight == votes_pre_clanw(pre, key) + self.clan.spec_stake(
                        vauthor,
                    ));
                    assert(e.1.latched == (votes_pre_latched(pre, key) || opt is Some));
                    assert(has_votes_key(pre, key) ==> self.votes_aggregators@ == pre.update(
                        ki,
                        e,
                    ));
                    assert(!has_votes_key(pre, key) ==> self.votes_aggregators@ == pre.push(e));
                }
                Ok(opt)
            },
            Err(e) => {
                if ix < n {
                    self.votes_aggregators.insert(ix, entry);
                    proof {
                        assert(entry == pre[ix as int]);
                        assert(self.votes_aggregators@ =~= pre);
                    }
                } else {
                    proof {
                        assert(self.votes_aggregators@ =~= pre);
                    }
                }
                Err(e)
            },
        }
    }

    /// Handles an inbound certificate: check both stake thresholds and
    /// the aggregate signature over the bitmap, then either park it on
    /// missing ancestors or feed the round's aggregation; a completed
    /// round advances the core.
    /// Handles an inbound certificate: checks both stake thresholds and
    /// the aggregate signature over the bitmap, then either parks it on
    /// missing ancestors or feeds the round's aggregation; an emitted
    /// batch advances the core past the certified round and goes to the
    /// proposer as parents.
    pub fn process_certificate(&mut self, certificate: Certificate) -> (r: DagResult<
        CertificateOutcome,
    >)
        requires
            old(self).wf(),
        ensures
            final(self).wf(),
            final(self).last_voted_round == old(self).last_voted_round,
            final(self).current_round >= old(self).current_round,
            r is Ok ==> spec_certificate_valid(
                old(self).committee,
                origin_clan_id(old(self).committee, certificate@.origin),
                certificate@,
            ),
            match r {
                Err(DagError::StaleRound(rr)) => rr == certificate@.round && certificate@.round
                    < old(self).gc_round && eq_except_aggregators(*final(self), *old(self))
                    && same_aggregators(*final(self), *old(self)),
                Err(DagError::UnknownAuthority(a)) => a == certificate@.origin
                    && certificate@.round >= old(self).gc_round && !old(self).committee.spec_has(
                    certificate@.origin,
                ) && eq_except_aggregators(*final(self), *old(self)) && same_aggregators(
                    *final(self),
                    *old(self),
                ),
                Err(DagError::InvalidSignature) => certificate@.round >= old(self).gc_round && old(
                    self,
                ).committee.spec_has(certificate@.origin) && (certificate@.bitmap.len() < (old(
                    self,
                ).committee.authorities@.len() + 127) / 128 || !spec_certificate_valid(
                    old(self).committee,
                    origin_clan_id(old(self).committee, certificate@.origin),
                    certificate@,
                )) && eq_except_aggregators(*final(self), *old(self)) && same_aggregators(
                    *final(self),
                    *old(self),
                ),
                Err(_) => false,
                Ok(CertificateOutcome::Parked) => {
                    &&& certificate@.round >= old(self).gc_round
                    &&& old(self).committee.spec_has(certificate@.origin)
                    &&& !old(self).synchronizer.spec_deliverable(
                        old(self).header_store,
                        certificate@.header_id,
                    )
                    &&& final(self).certificate_waiter.pending@.len() == old(
                        self,
                    ).certificate_waiter.pending@.len() + 1
                    &&& final(self).certificate_waiter.pending@.subrange(
                        0,
                        old(self).certificate_waiter.pending@.len() as int,
                    ) == old(self).certificate_waiter.pending@
                    &&& final(self).certificate_waiter.pending@.last().1 == certificate
                    &&& (!old(self).header_store.spec_contains(certificate@.header_id) ==> final(self).certificate_waiter.pending@.last().0@ == seq![certificate@.header_id])
                    &&& (old(self).header_store.spec_contains(certificate@.header_id) ==> final(self).certificate_waiter.pending@.last().0@ == crate::synchronizer::view_parents(
                        crate::synchronizer::stored_header(
                            old(self).header_store,
                            certificate@.header_id,
                        ),
                    ))
                    &&& final(self).header_store == old(self).header_store
                    &&& final(self).header_waiter == old(self).header_waiter
                    &&& final(self).synchronizer == old(self).synchronizer
                    &&& final(self).current_round == old(self).current_round
                    &&& final(self).gc_round == old(self).gc_round
                    &&& same_aggregators(*final(self), *old(self))
                },
                Ok(CertificateOutcome::Accepted) => ({
                    let key = certificate@.round;
                    let pre = old(self).certificates_aggregators@;
                    &&& certificate@.round >= old(self).gc_round
                    &&& old(self).synchronizer.spec_deliverable(
                        old(self).header_store,
                        certificate@.header_id,
                    )
                    &&& eq_except_aggregators(*final(self), *old(self))
                    &&& final(self).votes_aggregators@ == old(self).votes_aggregators@
                    &&& final(self).timeout_aggregators@ == old(self).timeout_aggregators@
                    &&& final(self).no_vote_aggregators@ == old(self).no_vote_aggregators@
                    &&& if certs_pre_used(pre, key).contains(certificate@.origin) {
                        final(self).certificates_aggregators@ == pre
                    } else {
                        ({
                            let ki = if has_certs_key(pre, key) {
                                certs_index_of(pre, key)
                            } else {
                                pre.len() as int
                            };
                            let e = final(self).certificates_aggregators@[ki];
                            &&& (has_certs_key(pre, key) ==> final(self).certificates_aggregators@ == pre.update(ki, e))
                            &&& (!has_certs_key(pre, key) ==> final(self).certificates_aggregators@ == pre.push(e))
                            &&& e.0 == key
                            &&& e.1.used@ == certs_pre_used(pre, key).push(certificate@.origin)
                            &&& e.1.weight == certs_pre_weight(pre, key) + old(
                                self,
                            ).committee.spec_stake(certificate@.origin)
                            &&& e.1.certificates@ == certs_pre_certs(pre, key).push(certificate)
                            &&& (!crate::aggregators::leaders_present(
                                old(self).committee,
                                old(self).leaders_per_round as int,
                                certificate@.round as int,
                                e.1.used@,
                            ) || e.1.weight < old(self).committee.spec_quorum_threshold())
                        })
                    }
                }),
                Ok(CertificateOutcome::RoundAdvanced(batch)) => ({
                    let key = certificate@.round;
                    let pre = old(self).certificates_aggregators@;
                    &&& certificate@.round >= old(self).gc_round
                    &&& old(self).synchronizer.spec_deliverable(
                        old(self).header_store,
                        certificate@.header_id,
                    )
                    &&& !certs_pre_used(pre, key).contains(certificate@.origin)
                    &&& crate::aggregators::leaders_present(
                        old(self).committee,
                        old(self).leaders_per_round as int,
                        certificate@.round as int,
                        certs_pre_used(pre, key).push(certificate@.origin),
                    )
                    &&& certs_pre_weight(pre, key) + old(self).committee.spec_stake(
                        certificate@.origin,
                    ) >= old(self).committee.spec_quorum_threshold()
                    &&& batch@ == certs_pre_certs(pre, key).push(certificate)
                    &&& final(self).current_round == (if certificate@.round < u64::MAX && (
                    certificate@.round + 1) > old(self).current_round {
                        (certificate@.round + 1) as u64
                    } else {
                        old(self).current_round
                    })
                    &&& final(self).gc_round == (if final(self).current_round > old(
                        self,
                    ).current_round && final(self).current_round > old(self).gc_depth && final(self).current_round - old(self).gc_depth > old(self).gc_round {
                        (final(self).current_round - old(self).gc_depth) as u64
                    } else {
                        old(self).gc_round
                    })
                    &&& final(self).header_store == old(self).header_store
                    &&& final(self).header_waiter == old(self).header_waiter
                    &&& final(self).certificate_waiter == old(self).certificate_waiter
                    &&& final(self).synchronizer == old(self).synchronizer
                }),
            },
    {
        if certificate.round < self.gc_round {
            return Err(DagError::StaleRound(certificate.round));
        }
        let idx = match self.committee.index_of(&certificate.origin) {
            Some(i) => i,
            None => {
                return Err(DagError::UnknownAuthority(certificate.origin));
            },
        };
        let clan_id = self.committee.authorities[idx].clan_id;
        proof {
            assert(clan_id == origin_clan_id(self.committee, certificate@.origin));
        }
        // The bitmap must cover the committee.
        let words = (self.committee.size() + 127) / 128;
        if certificate.bitmap.len() < words {
            return Err(DagError::InvalidSignature);
        }
        // Both stake thresholds and the aggregate signature.
        if !validate_certificate(&self.committee, clan_id, &certificate) {
            return Err(DagError::InvalidSignature);
        }
        // Ancestors must be available; otherwise the waiter holds the
        // certificate until they are.
        if !self.synchronizer.deliver_certificate(&self.header_store, &certificate) {
            self.certificate_waiter.park(&self.header_store, certificate);
            return Ok(CertificateOutcome::Parked);
        }
        let round = certificate.round;
        let ghost cround = certificate@.round;
        let ghost corigin = certificate@.origin;
        let ghost cert0 = certificate;
        // Feed the round's certificate aggregation.
        let n = self.certificates_aggregators.len();
        let mut ix: usize = n;
        let mut i: usize = 0;
        while i < n
            invariant
                *self == *old(self),
                old(self).wf(),
                n == self.certificates_aggregators@.len(),
                i <= n,
                ix <= n,
                round == cround,
                ix == n || i == n,
                ix == n ==> forall|j: int|
                    0 <= j < i ==> self.certificates_aggregators@[j].0 != round,
                ix < n ==> certs_key_at(self.certificates_aggregators@, round, ix as int),
            decreases n - i,
        {
            if self.certificates_aggregators[i].0 == round {
                assert(self.certificates_aggregators@[i as int].0 == round);
                assert(forall|j: int| 0 <= j < i ==> self.certificates_aggregators@[j].0 != round);
                ix = i;
                i = n;
            } else {
                assert(self.certificates_aggregators@[i as int].0 != round);
                i += 1;
            }
        }
        proof {
            if ix < n {
                assert(has_certs_key(old(self).certificates_aggregators@, round));
                assert(certs_index_of(old(self).certificates_aggregators@, round) == ix) by {
                    let w = certs_index_of(old(self).certificates_aggregators@, round);
                    assert(certs_key_at(old(self).certificates_aggregators@, round, w));
                    assert(certs_key_at(old(self).certificates_aggregators@, round, ix as int));
                }
            } else {
                assert(!has_certs_key(old(self).certificates_aggregators@, round)) by {
                    if has_certs_key(old(self).certificates_aggregators@, round) {
                        let w = certs_index_of(old(self).certificates_aggregators@, round);
                        assert(certs_key_at(old(self).certificates_aggregators@, round, w));
                    }
                }
            }
        }
        let mut entry = if ix < self.certificates_aggregators.len() {
            let e = self.certificates_aggregators.remove(ix);
            proof {
                assert forall|j: int| 0 <= j < self.certificates_aggregators@.len() implies (
                #[trigger] self.certificates_aggregators@[j].1).wf(self.committee) by {
                    if j < ix {
                        assert(self.certificates_aggregators@[j] == old(
                            self,
                        ).certificates_aggregators@[j]);
                    } else {
                        assert(self.certificates_aggregators@[j] == old(
                            self,
                        ).certificates_aggregators@[j + 1]);
                    }
                }
            }
            e
        } else {
            (round, CertificatesAggregator::new())
        };
        let ghost pre = old(self).certificates_aggregators@;
        proof {
            assert(entry.0 == round);
            assert(entry.1.used@ == certs_pre_used(pre, round));
            assert(entry.1.weight == certs_pre_weight(pre, round));
            assert(entry.1.certificates@ == certs_pre_certs(pre, round));
        }
        let result = entry.1.append(certificate, &self.committee, self.leaders_per_round);
        if ix < n {
            self.certificates_aggregators.insert(ix, entry);
            proof {
                assert(self.certificates_aggregators@ =~= pre.update(
                    ix as int,
                    self.certificates_aggregators@[ix as int],
                ));
            }
        } else {
            self.certificates_aggregators.push(entry);
            proof {
                assert(self.certificates_aggregators@ =~= pre.push(
                    self.certificates_aggregators@[n as int],
                ));
            }
        }
        proof {
            assert forall|j: int| 0 <= j < self.certificates_aggregators@.len() implies (
            #[trigger] self.certificates_aggregators@[j].1).wf(self.committee) by {
                if j != ix {
                    assert(self.certificates_aggregators@[j] == pre[j]);
                }
            }
            if ix < n {
                assert(self.certificates_aggregators@[ix as int] == entry);
            } else {
                assert(self.certificates_aggregators@[n as int] == entry);
            }
            if certs_pre_used(pre, cround).contains(corigin) {
                assert(self.certificates_aggregators@ =~= pre);
            }
        }
        match result {
            Ok(Some(batch)) => {
                // The round is complete: advance past it and raise the
                // garbage-collection horizon.
                if round < u64::MAX && round + 1 > self.current_round {
                    self.current_round = round + 1;
                    if self.current_round > self.gc_depth {
                        let horizon = self.current_round - self.gc_depth;
                        if horizon > self.gc_round {
                            self.gc_round = horizon;
                            self.collect_garbage();
                        }
                    }
                }
                Ok(CertificateOutcome::RoundAdvanced(batch))
            },
            Ok(None) => Ok(CertificateOutcome::Accepted),
            Err(_) => {
                proof {
                    assert(false);
                }
                Ok(CertificateOutcome::Accepted)
            },
        }
    }

    /// Feeds a timeout to its round's aggregation; an emitted timeout
    /// certificate is handed to the proposer. The contract mirrors the
    /// round's aggregator exactly: errors happen if and only if the
    /// timeout is stale or its author already counted; otherwise the
    /// round's entry absorbs the timeout and emits a certificate whenever
    /// the gathered stake reaches the quorum threshold.
    pub fn process_timeout(&mut self, timeout: Timeout) -> (r: DagResult<Option<TimeoutCert>>)
        requires
            old(self).wf(),
        ensures
            final(self).wf(),
            final(self).last_voted_round == old(self).last_voted_round,
            final(self).current_round == old(self).current_round,
            final(self).gc_round == old(self).gc_round,
            match r {
                Err(DagError::StaleRound(rr)) => rr == timeout@.round && timeout@.round < old(
                    self,
                ).gc_round && eq_except_aggregators(*final(self), *old(self)) && same_aggregators(
                    *final(self),
                    *old(self),
                ),
                Err(DagError::AuthorityReuse(a)) => a == timeout@.author && timeout@.round >= old(
                    self,
                ).gc_round && tmo_pre_used(old(self).timeout_aggregators@, timeout@.round).contains(
                    timeout@.author,
                ) && eq_except_aggregators(*final(self), *old(self)) && same_aggregators(
                    *final(self),
                    *old(self),
                ),
                Err(_) => false,
                Ok(opt) => ({
                    let key = timeout@.round;
                    let pre = old(self).timeout_aggregators@;
                    let ki = if has_tmo_key(pre, key) {
                        tmo_index_of(pre, key)
                    } else {
                        pre.len() as int
                    };
                    let e = final(self).timeout_aggregators@[ki];
                    &&& timeout@.round >= old(self).gc_round
                    &&& !tmo_pre_used(pre, key).contains(timeout@.author)
                    &&& eq_except_aggregators(*final(self), *old(self))
                    &&& final(self).votes_aggregators@ == old(self).votes_aggregators@
                    &&& final(self).certificates_aggregators@ == old(
                        self,
                    ).certificates_aggregators@
                    &&& final(self).no_vote_aggregators@ == old(self).no_vote_aggregators@
                    &&& (has_tmo_key(pre, key) ==> final(self).timeout_aggregators@ == pre.update(
                        ki,
                        e,
                    ))
                    &&& (!has_tmo_key(pre, key) ==> final(self).timeout_aggregators@ == pre.push(
                        e,
                    ))
                    &&& e.0 == key
                    &&& e.1.used@ == tmo_pre_used(pre, key).push(timeout@.author)
                    &&& e.1.weight == tmo_pre_weight(pre, key) + old(self).committee.spec_stake(
                        timeout@.author,
                    )
                    &&& crate::aggregators::entries_views(e.1.timeouts@) == tmo_pre_entries(
                        pre,
                        key,
                    ).push((timeout@.author, timeout@.signature))
                    &&& match opt {
                        Some(cert) => e.1.weight >= old(self).committee.spec_quorum_threshold()
                            && cert@.round == timeout@.round && cert@.timeouts
                            == crate::aggregators::entries_views(e.1.timeouts@),
                        None => e.1.weight < old(self).committee.spec_quorum_threshold(),
                    }
                }),
            },
    {
        if timeout.round < self.gc_round {
            return Err(DagError::StaleRound(timeout.round));
        }
        let round = timeout.round;
        let ghost tauthor = timeout@.author;
        let n = self.timeout_aggregators.len();
        let mut ix: usize = n;
        let mut i: usize = 0;
        while i < n
            invariant
                *self == *old(self),
                old(self).wf(),
                n == self.timeout_aggregators@.len(),
                i <= n,
                ix <= n,
                round == timeout@.round,
                ix == n || i == n,
                ix == n ==> forall|j: int| 0 <= j < i ==> self.timeout_aggregators@[j].0 != round,
                ix < n ==> tmo_key_at(self.timeout_aggregators@, round, ix as int),
            decreases n - i,
        {
            if self.timeout_aggregators[i].0 == round {
                assert(self.timeout_aggregators@[i as int].0 == round);
                assert(forall|j: int| 0 <= j < i ==> self.timeout_aggregators@[j].0 != round);
                ix = i;
                i = n;
            } else {
                assert(self.timeout_aggregators@[i as int].0 != round);
                i += 1;
            }
        }
        proof {
            if ix < n {
                assert(has_tmo_key(old(self).timeout_aggregators@, round));
                assert(tmo_index_of(old(self).timeout_aggregators@, round) == ix) by {
                    let w = tmo_index_of(old(self).timeout_aggregators@, round);
                    assert(tmo_key_at(old(self).timeout_aggregators@, round, w));
                    assert(tmo_key_at(old(self).timeout_aggregators@, round, ix as int));
                }
            } else {
                assert(!has_tmo_key(old(self).timeout_aggregators@, round)) by {
                    if has_tmo_key(old(self).timeout_aggregators@, round) {
                        let w = tmo_index_of(old(self).timeout_aggregators@, round);
                        assert(tmo_key_at(old(self).timeout_aggregators@, round, w));
                    }
                }
            }
        }
        let mut entry = if ix < self.timeout_aggregators.len() {
            let e = self.timeout_aggregators.remove(ix);
            proof {
                assert forall|j: int| 0 <= j < self.timeout_aggregators@.len() implies (
                #[trigger] self.timeout_aggregators@[j].1).wf(self.committee) by {
                    if j < ix {
                        assert(self.timeout_aggregators@[j] == old(self).timeout_aggregators@[j]);
                    } else {
                        assert(self.timeout_aggregators@[j] == old(self).timeout_aggregators@[j
                            + 1]);
                    }
                }
            }
            e
        } else {
            (round, TimeoutAggregator::new())
        };
        let ghost pre = old(self).timeout_aggregators@;
        proof {
            assert(entry.0 == round);
            assert(entry.1.used@ == tmo_pre_used(pre, round));
            assert(entry.1.weight == tmo_pre_weight(pre, round));
            assert(crate::aggregators::entries_views(entry.1.timeouts@) == tmo_pre_entries(
                pre,
                round,
            )) by {
                if !has_tmo_key(pre, round) {
                    assert(crate::aggregators::entries_views(entry.1.timeouts@)
                        =~= Seq::<(PublicKey, Seq<u8>)>::empty());
                }
            }
        }
        let result = entry.1.append(timeout, &self.committee);
        match result {
            Ok(opt) => {
                if ix < n {
                    self.timeout_aggregators.insert(ix, entry);
                    proof {
                        assert(self.timeout_aggregators@ =~= pre.update(
                            ix as int,
                            self.timeout_aggregators@[ix as int],
                        ));
                    }
                } else {
                    self.timeout_aggregators.push(entry);
                    proof {
                        assert(self.timeout_aggregators@ =~= pre.push(
                            self.timeout_aggregators@[n as int],
                        ));
                    }
                }
                proof {
                    assert forall|j: int| 0 <= j < self.timeout_aggregators@.len() implies (
                    #[trigger] self.timeout_aggregators@[j].1).wf(self.committee) by {
                        if j != ix {
                            assert(self.timeout_aggregators@[j] == pre[j]);
                        }
                    }
                    if ix < n {
                        assert(self.timeout_aggregators@[ix as int] == entry);
                    } else {
                        assert(self.timeout_aggregators@[n as int] == entry);
                    }
                }
                Ok(opt)
            },
            Err(e) => {
                if ix < n {
                    self.timeout_aggregators.insert(ix, entry);
                    proof {
                        assert(entry == pre[ix as int]);
                        assert(self.timeout_aggregators@ =~= pre);
                    }
                } else {
                    proof {
                        assert(self.timeout_aggregators@ =~= pre);
                    }
                }
                Err(e)
            },
        }
    }

    /// Feeds a no-vote message to its round's aggregation; an emitted
    /// no-vote certificate is handed to the proposer. The contract mirrors
    /// the round's aggregator exactly, as `process_timeout` does.
    pub fn process_no_vote(&mut self, msg: NoVoteMsg) -> (r: DagResult<Option<NoVoteCert>>)
        requires
            old(self).wf(),
        ensures
            final(self).wf(),
            final(self).last_voted_round == old(self).last_voted_round,
            final(self).current_round == old(self).current_round,
            final(self).gc_round == old(self).gc_round,
            match r {
                Err(DagError::StaleRound(rr)) => rr == msg@.round && msg@.round < old(
                    self,
                ).gc_round && eq_except_aggregators(*final(self), *old(self)) && same_aggregators(
                    *final(self),
                    *old(self),
                ),
                Err(DagError::AuthorityReuse(a)) => a == msg@.author && msg@.round >= old(
                    self,
                ).gc_round && nv_pre_used(old(self).no_vote_aggregators@, msg@.round).contains(
                    msg@.author,
                ) && eq_except_aggregators(*final(self), *old(self)) && same_aggregators(
                    *final(self),
                    *old(self),
                ),
                Err(_) => false,
                Ok(opt) => ({
                    let key = msg@.round;
                    let pre = old(self).no_vote_aggregators@;
                    let ki = if has_nv_key(pre, key) {
                        nv_index_of(pre, key)
                    } else {
                        pre.len() as int
                    };
                    let e = final(self).no_vote_aggregators@[ki];
                    &&& msg@.round >= old(self).gc_round
                    &&& !nv_pre_used(pre, key).contains(msg@.author)
                    &&& eq_except_aggregators(*final(self), *old(self))
                    &&& final(self).votes_aggregators@ == old(self).votes_aggregators@
                    &&& final(self).certificates_aggregators@ == old(
                        self,
                    ).certificates_aggregators@
                    &&& final(self).timeout_aggregators@ == old(self).timeout_aggregators@
                    &&& (has_nv_key(pre, key) ==> final(self).no_vote_aggregators@ == pre.update(
                        ki,
                        e,
                    ))
                    &&& (!has_nv_key(pre, key) ==> final(self).no_vote_aggregators@ == pre.push(
                        e,
                    ))
                    &&& e.0 == key
                    &&& e.1.used@ == nv_pre_used(pre, key).push(msg@.author)
                    &&& e.1.weight == nv_pre_weight(pre, key) + old(self).committee.spec_stake(
                        msg@.author,
                    )
                    &&& crate::aggregators::entries_views(e.1.no_votes@) == nv_pre_entries(
                        pre,
                        key,
                    ).push((msg@.author, msg@.signature))
                    &&& match opt {
                        Some(cert) => e.1.weight >= old(self).committee.spec_quorum_threshold()
                            && cert@.round == msg@.round && cert@.timeouts
                            == crate::aggregators::entries_views(e.1.no_votes@),
                        None => e.1.weight < old(self).committee.spec_quorum_threshold(),
                    }
                }),
            },
    {
        if msg.round < self.gc_round {
            return Err(DagError::StaleRound(msg.round));
        }
        let round = msg.round;
        let ghost mauthor = msg@.author;
        let n = self.no_vote_aggregators.len();
        let mut ix: usize = n;
        let mut i: usize = 0;
        while i < n
            invariant
                *self == *old(self),
                old(self).wf(),
                n == self.no_vote_aggregators@.len(),
                i <= n,
                ix <= n,
                round == msg@.round,
                ix == n || i == n,
                ix == n ==> forall|j: int| 0 <= j < i ==> self.no_vote_aggregators@[j].0 != round,
                ix < n ==> nv_key_at(self.no_vote_aggregators@, round, ix as int),
            decreases n - i,
        {
            if self.no_vote_aggregators[i].0 == round {
                assert(self.no_vote_aggregators@[i as int].0 == round);
                assert(forall|j: int| 0 <= j < i ==> self.no_vote_aggregators@[j].0 != round);
                ix = i;
                i = n;
            } else {
                assert(self.no_vote_aggregators@[i as int].0 != round);
                i += 1;
            }
        }
        proof {
            if ix < n {
                assert(has_nv_key(old(self).no_vote_aggregators@, round));
                assert(nv_index_of(old(self).no_vote_aggregators@, round) == ix) by {
                    let w = nv_index_of(old(self).no_vote_aggregators@, round);
                    assert(nv_key_at(old(self).no_vote_aggregators@, round, w));
                    assert(nv_key_at(old(self).no_vote_aggregators@, round, ix as int));
                }
            } else {
                assert(!has_nv_key(old(self).no_vote_aggregators@, round)) by {
                    if has_nv_key(old(self).no_vote_aggregators@, round) {
                        let w = nv_index_of(old(self).no_vote_aggregators@, round);
                        assert(nv_key_at(old(self).no_vote_aggregators@, round, w));
                    }
                }
            }
        }
        let mut entry = if ix < self.no_vote_aggregators.len() {
            let e = self.no_vote_aggregators.remove(ix);
            proof {
                assert forall|j: int| 0 <= j < self.no_vote_aggregators@.len() implies (
                #[trigger] self.no_vote_aggregators@[j].1).wf(self.committee) by {
                    if j < ix {
                        assert(self.no_vote_aggregators@[j] == old(self).no_vote_aggregators@[j]);
                    } else {
                        assert(self.no_vote_aggregators@[j] == old(self).no_vote_aggregators@[j
                            + 1]);
                    }
                }
            }
            e
        } else {
            (round, NoVoteAggregator::new())
        };
        let ghost pre = old(self).no_vote_aggregators@;
        proof {
            assert(entry.0 == round);
            assert(entry.1.used@ == nv_pre_used(pre, round));
            assert(entry.1.weight == nv_pre_weight(pre, round));
            assert(crate::aggregators::entries_views(entry.1.no_votes@) == nv_pre_entries(
                pre,
                round,
            )) by {
                if !has_nv_key(pre, round) {
                    assert(crate::aggregators::entries_views(entry.1.no_votes@)
                        =~= Seq::<(PublicKey, Seq<u8>)>::empty());
                }
            }
        }
        let result = entry.1.append(msg, &self.committee);
        match result {
            Ok(opt) => {
                if ix < n {
                    self.no_vote_aggregators.insert(ix, entry);
                    proof {
                        assert(self.no_vote_aggregators@ =~= pre.update(
                            ix as int,
                            self.no_vote_aggregators@[ix as int],
                        ));
                    }
                } else {
                    self.no_vote_aggregators.push(entry);
                    proof {
                        assert(self.no_vote_aggregators@ =~= pre.push(
                            self.no_vote_aggregators@[n as int],
                        ));
                    }
                }
                proof {
                    assert forall|j: int| 0 <= j < self.no_vote_aggregators@.len() implies (
                    #[trigger] self.no_vote_aggregators@[j].1).wf(self.committee) by {
                        if j != ix {
                            assert(self.no_vote_aggregators@[j] == pre[j]);
                        }
                    }
                    if ix < n {
                        assert(self.no_vote_aggregators@[ix as int] == entry);
                    } else {
                        assert(self.no_vote_aggregators@[n as int] == entry);
                    }
                }
                Ok(opt)
            },
            Err(e) => {
                if ix < n {
                    self.no_vote_aggregators.insert(ix, entry);
                    proof {
                        assert(entry == pre[ix as int]);
                        assert(self.no_vote_aggregators@ =~= pre);
                    }
                } else {
                    proof {
                        assert(self.no_vote_aggregators@ =~= pre);
                    }
                }
                Err(e)
            },
        }
    }

    /// Drops the aggregator state of every round at or below the
    /// garbage-collection horizon.
    fn collect_garbage(&mut self)
        requires
            old(self).wf(),
        ensures
            final(self).wf(),
            eq_except_aggregators(*final(self), *old(self)),
            forall|i: int|
                0 <= i < final(self).votes_aggregators@.len()
                    ==> (#[trigger] final(self).votes_aggregators@[i]).0.0 > final(self).gc_round,
            forall|i: int|
                0 <= i < final(self).certificates_aggregators@.len()
                    ==> (#[trigger] final(self).certificates_aggregators@[i]).0 > final(self).gc_round,
            forall|i: int|
                0 <= i < final(self).timeout_aggregators@.len()
                    ==> (#[trigger] final(self).timeout_aggregators@[i]).0 > final(self).gc_round,
            forall|i: int|
                0 <= i < final(self).no_vote_aggregators@.len()
                    ==> (#[trigger] final(self).no_vote_aggregators@[i]).0 > final(self).gc_round,
    {
        let horizon = self.gc_round;
        let mut kept_votes: Vec<((Round, PublicKey), VotesAggregator)> = Vec::new();
        let mut work_votes: Vec<((Round, PublicKey), VotesAggregator)> = Vec::new();
        core::mem::swap(&mut work_votes, &mut self.votes_aggregators);
        let ghost w0 = work_votes@;
        let n = work_votes.len();
        let mut k: usize = 0;
        while k < n
            invariant
                old(self).wf(),
                w0 == old(self).votes_aggregators@,
                n == w0.len(),
                k <= n,
                work_votes@ == w0.subrange(k as int, n as int),
                forall|j: int|
                    0 <= j < kept_votes@.len() ==> (#[trigger] kept_votes@[j]).0.0 > horizon
                        && kept_votes@[j].1.wf(old(self).committee, old(self).clan),
            decreases n - k,
        {
            let entry = work_votes.remove(0);
            proof {
                assert(entry == w0[k as int]) by {
                    assert(w0.subrange(k as int, n as int)[0] == w0[k as int]);
                }
                assert(work_votes@ =~= w0.subrange(k + 1, n as int));
            }
            if entry.0.0 > horizon {
                kept_votes.push(entry);
            }
            k += 1;
        }
        self.votes_aggregators = kept_votes;
        let mut kept_c: Vec<(Round, CertificatesAggregator)> = Vec::new();
        let mut work_c: Vec<(Round, CertificatesAggregator)> = Vec::new();
        core::mem::swap(&mut work_c, &mut self.certificates_aggregators);
        let ghost w1 = work_c@;
        let n1 = work_c.len();
        let mut k1: usize = 0;
        while k1 < n1
            invariant
                old(self).wf(),
                w1 == old(self).certificates_aggregators@,
                n1 == w1.len(),
                k1 <= n1,
                work_c@ == w1.subrange(k1 as int, n1 as int),
                forall|j: int|
                    0 <= j < kept_c@.len() ==> (#[trigger] kept_c@[j]).0 > horizon
                        && kept_c@[j].1.wf(old(self).committee),
            decreases n1 - k1,
        {
            let entry = work_c.remove(0);
            proof {
                assert(entry == w1[k1 as int]) by {
                    assert(w1.subrange(k1 as int, n1 as int)[0] == w1[k1 as int]);
                }
                assert(work_c@ =~= w1.subrange(k1 + 1, n1 as int));
            }
            if entry.0 > horizon {
                kept_c.push(entry);
            }
            k1 += 1;
        }
        self.certificates_aggregators = kept_c;
        let mut kept_t: Vec<(Round, TimeoutAggregator)> = Vec::new();
        let mut work_t: Vec<(Round, TimeoutAggregator)> = Vec::new();
        core::mem::swap(&mut work_t, &mut self.timeout_aggregators);
        let ghost w2 = work_t@;
        let n2 = work_t.len();
        let mut k2: usize = 0;
        while k2 < n2
            invariant
                old(self).wf(),
                w2 == old(self).timeout_aggregators@,
                n2 == w2.len(),
                k2 <= n2,
                work_t@ == w2.subrange(k2 as int, n2 as int),
                forall|j: int|
                    0 <= j < kept_t@.len() ==> (#[trigger] kept_t@[j]).0 > horizon
                        && kept_t@[j].1.wf(old(self).committee),
            decreases n2 - k2,
        {
            let entry = work_t.remove(0);
            proof {
                assert(entry == w2[k2 as int]) by {
                    assert(w2.subrange(k2 as int, n2 as int)[0] == w2[k2 as int]);
                }
                assert(work_t@ =~= w2.subrange(k2 + 1, n2 as int));
            }
            if entry.0 > horizon {
                kept_t.push(entry);
            }
            k2 += 1;
        }
        self.timeout_aggregators = kept_t;
        let mut kept_n: Vec<(Round, NoVoteAggregator)> = Vec::new();
        let mut work_n: Vec<(Round, NoVoteAggregator)> = Vec::new();
        core::mem::swap(&mut work_n, &mut self.no_vote_aggregators);
        let ghost w3 = work_n@;
        let n3 = work_n.len();
        let mut k3: usize = 0;
        while k3 < n3
            invariant
                old(self).wf(),
                w3 == old(self).no_vote_aggregators@,
                n3 == w3.len(),
                k3 <= n3,
                work_n@ == w3.subrange(k3 as int, n3 as int),
                forall|j: int|
                    0 <= j < kept_n@.len() ==> (#[trigger] kept_n@[j]).0 > horizon
                        && kept_n@[j].1.wf(old(self).committee),
            decreases n3 - k3,
        {
            let entry = work_n.remove(0);
            proof {
                assert(entry == w3[k3 as int]) by {
                    assert(w3.subrange(k3 as int, n3 as int)[0] == w3[k3 as int]);
                }
                assert(work_n@ =~= w3.subrange(k3 + 1, n3 as int));
            }
            if entry.0 > horizon {
                kept_n.push(entry);
            }
            k3 += 1;
        }
        self.no_vote_aggregators = kept_n;
    }

    /// Releases the certificates whose ancestors have arrived since they
    /// were parked; the runtime loops them back into
    /// `process_certificate`. Exactly the parked certificates whose
    /// dependencies are all stored come out, in parking order; the rest
    /// stay parked; nothing else changes.
    pub fn drain_certificate_waiter(&mut self) -> (r: Vec<Certificate>)
        requires
            old(self).wf(),
        ensures
            final(self).wf(),
            r@ == crate::waiter::ready_certs(
                old(self).header_store,
                old(self).certificate_waiter.pending@,
            ),
            final(self).certificate_waiter.pending@ == crate::waiter::blocked_certs(
                old(self).header_store,
                old(self).certificate_waiter.pending@,
            ),
            final(self).header_store == old(self).header_store,
            final(self).header_waiter == old(self).header_waiter,
            final(self).last_voted_round == old(self).last_voted_round,
            final(self).current_round == old(self).current_round,
            final(self).gc_round == old(self).gc_round,
            final(self).votes_aggregators@ == old(self).votes_aggregators@,
            final(self).certificates_aggregators@ == old(self).certificates_aggregators@,
            final(self).timeout_aggregators@ == old(self).timeout_aggregators@,
            final(self).no_vote_aggregators@ == old(self).no_vote_aggregators@,
    {
        let mut store = Store::new();
        core::mem::swap(&mut store, &mut self.header_store);
        let out = self.certificate_waiter.drain_ready(&store);
        core::mem::swap(&mut store, &mut self.header_store);
        out
    }

    /// Releases the headers whose missing parents have arrived since they
    /// were parked; the runtime loops them back into `process_header`.
    /// Exactly the parked headers whose dependencies are all stored come
    /// out, in parking order; the rest stay parked; nothing else changes.
    pub fn drain_header_waiter(&mut self) -> (r: Vec<HeaderType>)
        requires
            old(self).wf(),
        ensures
            final(self).wf(),
            r@ == crate::waiter::ready_headers(
                old(self).header_store,
                old(self).header_waiter.pending@,
            ),
            final(self).header_waiter.pending@ == crate::waiter::blocked_headers(
                old(self).header_store,
                old(self).header_waiter.pending@,
            ),
            final(self).header_store == old(self).header_store,
            final(self).certificate_waiter == old(self).certificate_waiter,
            final(self).last_voted_round == old(self).last_voted_round,
            final(self).current_round == old(self).current_round,
            final(self).gc_round == old(self).gc_round,
            final(self).votes_aggregators@ == old(self).votes_aggregators@,
            final(self).certificates_aggregators@ == old(self).certificates_aggregators@,
            final(self).timeout_aggregators@ == old(self).timeout_aggregators@,
            final(self).no_vote_aggregators@ == old(self).no_vote_aggregators@,
    {
        let mut store = Store::new();
        core::mem::swap(&mut store, &mut self.header_store);
        let out = self.header_waiter.drain_ready(&store);
        core::mem::swap(&mut store, &mut self.header_store);
        out
    }
}

/// The clan id of the authority named `a`.
pub open spec fn origin_clan_id(c: Committee, a: PublicKey) -> u64 {
    c.authorities@[c.spec_index_of(a)].clan_id
}

/// The authors of a list of header sum values, in order.
pub open spec fn parent_authors(s: Seq<HeaderType>) -> Seq<PublicKey> {
    s.map_values(
        |ht: HeaderType|
            match ht {
                HeaderType::Header(h) => h.author,
                HeaderType::HeaderInfo(hi) => hi.author,
            },
    )
}

/// The stake carried by the parents' distinct authors, or `None` when an
/// author repeats.
pub fn parent_stake(c: &Committee, parents: &Vec<HeaderType>) -> (r: Option<u64>)
    requires
        c.wf(),
    ensures
        match r {
            Some(t) => t == crate::committee::covered_weight(
                c.authorities@,
                parent_authors(parents@),
            ) && forall|p: int, q: int|
                0 <= p < q < parents@.len() ==> parent_authors(parents@)[p] != parent_authors(
                    parents@,
                )[q],
            None => exists|p: int, q: int|
                0 <= p < q < parents@.len() && parent_authors(parents@)[p] == parent_authors(
                    parents@,
                )[q],
        },
{
    let n = parents.len();
    let mut authors: Vec<PublicKey> = Vec::new();
    let mut i: usize = 0;
    let mut total: u64 = 0;
    proof {
        crate::aggregators::lemma_covered_empty(c.authorities@);
        assert(authors@ =~= parent_authors(parents@).subrange(0, 0));
    }
    while i < n
        invariant
            c.wf(),
            n == parents@.len(),
            i <= n,
            authors@.len() == i,
            authors@ =~= parent_authors(parents@).subrange(0, i as int),
            forall|p: int, q: int| 0 <= p < q < authors@.len() ==> authors@[p] != authors@[q],
            total == crate::committee::covered_weight(c.authorities@, authors@),
        decreases n - i,
    {
        let a = match &parents[i] {
            HeaderType::Header(h) => h.author,
            HeaderType::HeaderInfo(hi) => hi.author,
        };
        proof {
            assert(parent_authors(parents@)[i as int] == a);
        }
        let m = authors.len();
        let mut j: usize = 0;
        while j < m
            invariant
                m == authors@.len(),
                i < n == parents@.len(),
                a == parent_authors(parents@)[i as int],
                authors@ =~= parent_authors(parents@).subrange(0, i as int),
                j <= m,
                forall|t: int| 0 <= t < j ==> authors@[t] != a,
            decreases m - j,
        {
            if authors[j] == a {
                proof {
                    assert(parent_authors(parents@)[j as int] == authors@[j as int]);
                }
                return None;
            }
            j += 1;
        }
        assert(!authors@.contains(a));
        let ghost pre = authors@;
        proof {
            if c.spec_has(a) {
                crate::committee::lemma_covered_weight_le_total(c.authorities@, pre.push(a));
                crate::committee::lemma_covered_weight_insert(
                    c.authorities@,
                    pre,
                    a,
                    c.spec_index_of(a),
                );
            } else {
                assert(crate::committee::absent_name(c.authorities@, a));
                crate::committee::lemma_covered_weight_absent(c.authorities@, pre, a);
                crate::committee::lemma_covered_weight_le_total(c.authorities@, pre);
            }
        }
        total = total + c.stake(&a);
        authors.push(a);
        proof {
            assert forall|p: int, q: int| 0 <= p < q < authors@.len() implies authors@[p]
                != authors@[q] by {
                if q == authors@.len() - 1 {
                    assert(authors@[p] == pre[p]);
                }
            }
        }
        i += 1;
    }
    proof {
        assert(authors@ =~= parent_authors(parents@));
    }
    Some(total)
}

/// Whether every leader appears among the parents' authors.
pub fn all_leaders_present(leaders: &Vec<PublicKey>, parents: &Vec<HeaderType>) -> (r: bool)
    ensures
        r == (forall|t: int|
            0 <= t < leaders@.len() ==> parent_authors(parents@).contains(#[trigger] leaders@[t])),
{
    let nl = leaders.len();
    let mut i: usize = 0;
    while i < nl
        invariant
            nl == leaders@.len(),
            i <= nl,
            forall|t: int|
                0 <= t < i ==> parent_authors(parents@).contains(#[trigger] leaders@[t]),
        decreases nl - i,
    {
        let leader = leaders[i];
        let np = parents.len();
        let mut j: usize = 0;
        let mut found = false;
        while j < np
            invariant
                np == parents@.len(),
                leader == leaders@[i as int],
                i < nl == leaders@.len(),
                j <= np,
                found ==> parent_authors(parents@).contains(leader),
                !found ==> forall|t: int| 0 <= t < j ==> parent_authors(parents@)[t] != leader,
            decreases np - j,
        {
            let a = match &parents[j] {
                HeaderType::Header(h) => h.author,
                HeaderType::HeaderInfo(hi) => hi.author,
            };
            proof {
                assert(parent_authors(parents@)[j as int] == a);
            }
            if a == leader {
                found = true;
                j = np;
            } else {
                j += 1;
            }
        }
        if !found {
            proof {
                assert(!parent_authors(parents@).contains(leader)) by {
                    if parent_authors(parents@).contains(leader) {
                        let t = choose|t: int|
                            0 <= t < parent_authors(parents@).len() && parent_authors(parents@)[t]
                                == leader;
                    }
                }
            }
            return false;
        }
        i += 1;
    }
    true
}

/// No vote is emitted twice for one round: each emission raises the
/// guard to its round, and the guard never decreases, so two emitted
/// votes always carry different rounds. `process_header` ensures each
/// emission satisfies `vote_emission` and that `last_voted_round` is
/// non-decreasing.
pub open spec fn vote_emission(pre_guard: Round, round: Round, post_guard: Round) -> bool {
    round > pre_guard && post_guard == round
}

/// The no-double-vote law over two emissions separated by any run that
/// does not decrease the guard.
pub proof fn lemma_no_double_vote(g0: Round, r1: Round, g1: Round, g2: Round, r2: Round, g3: Round)
    requires
        vote_emission(g0, r1, g1),
        g1 <= g2,
        vote_emission(g2, r2, g3),
    ensures
        r2 != r1,
{
}

} // verus!
