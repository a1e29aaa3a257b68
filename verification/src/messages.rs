//! The message model: headers, votes, timeouts, no-votes and their
//! certificates, with canonical digests.
//!
//! Every message has a mathematical view (a `...View` value) and a
//! canonical digest: the SHA-512 hash, truncated to 32 bytes, of the
//! concatenation of its canonical fields. Headers hold payload entries and
//! parent digests in canonical sorted order, and their `id` field always
//! equals their digest.

use crate::committee::Committee;
use crate::crypto::{sha512_trunc32, sha512_trunc32_of};
use crate::error::{DagError, DagResult};
use crate::sorting::{sort_digests, sort_payload, sorted_digests, sorted_payload};
use crate::types::{Digest, PublicKey, Round, WorkerId};
use vstd::bytes::*;
use vstd::prelude::*;

verus! {

// ---------------------------------------------------------------------------
// Timeouts and timeout certificates
// ---------------------------------------------------------------------------
/// Mathematical view of a `Timeout`.
pub struct TimeoutView {
    pub round: Round,
    pub author: PublicKey,
    pub signature: Seq<u8>,
}

/// A statement by `author` that the leaders of `round` timed out, signed
/// with the author's identity key.
#[derive(Debug)]
pub struct Timeout {
    pub round: Round,
    pub author: PublicKey,
    pub signature: Vec<u8>,
}

impl View for Timeout {
    type V = TimeoutView;

    open spec fn view(&self) -> TimeoutView {
        TimeoutView { round: self.round, author: self.author, signature: self.signature@ }
    }
}

/// The canonical bytes a timeout commits to: its round and its author.
pub open spec fn timeout_commit(round: Round, author: PublicKey) -> Seq<u8> {
    spec_u64_to_le_bytes(round) + author.spec_bytes()
}

/// The canonical digest of a timeout.
pub open spec fn spec_timeout_digest(t: TimeoutView) -> Digest {
    Digest::spec_from_bytes(sha512_trunc32_of(timeout_commit(t.round, t.author)))
}

impl Timeout {
    pub fn new(round: Round, author: PublicKey, signature: Vec<u8>) -> (r: Timeout)
        ensures
            r@ == (TimeoutView { round, author, signature: signature@ }),
    {
        Timeout { round, author, signature }
    }

    /// The bytes a timeout signature is computed over.
    pub fn commit_bytes(round: Round, author: PublicKey) -> (r: Vec<u8>)
        ensures
            r@ == timeout_commit(round, author),
    {
        let mut bytes = u64_to_le_bytes(round);
        let mut ab = author.to_bytes();
        bytes.append(&mut ab);
        bytes
    }

    /// The canonical digest of this timeout.
    pub fn digest(&self) -> (r: Digest)
        ensures
            r == spec_timeout_digest(self@),
    {
        let bytes = Timeout::commit_bytes(self.round, self.author);
        let h = sha512_trunc32(&bytes);
        Digest::from_bytes(h.as_slice())
    }
}

/// Mathematical view of a `TimeoutCert`.
pub struct TimeoutCertView {
    pub round: Round,
    pub timeouts: Seq<(PublicKey, Seq<u8>)>,
}

/// Whether `a` already contributed an entry to the certificate.
pub open spec fn cert_entries_contain(entries: Seq<(PublicKey, Seq<u8>)>, a: PublicKey) -> bool {
    exists|i: int| 0 <= i < entries.len() && entries[i].0 == a
}

/// Evidence that a quorum of authorities saw `round` time out: one
/// signature per distinct author.
#[derive(Debug)]
pub struct TimeoutCert {
    pub round: Round,
    pub timeouts: Vec<(PublicKey, Vec<u8>)>,
}

impl View for TimeoutCert {
    type V = TimeoutCertView;

    open spec fn view(&self) -> TimeoutCertView {
        TimeoutCertView {
            round: self.round,
            timeouts: self.timeouts@.map_values(|e: (PublicKey, Vec<u8>)| (e.0, e.1@)),
        }
    }
}

impl TimeoutCert {
    pub fn new(round: Round) -> (r: TimeoutCert)
        ensures
            r@.round == round,
            r@.timeouts.len() == 0,
    {
        TimeoutCert { round, timeouts: Vec::new() }
    }

    /// Adds one author's timeout signature; rejects an author that already
    /// contributed.
    pub fn add_timeout(&mut self, author: PublicKey, signature: Vec<u8>) -> (r: DagResult<()>)
        ensures
            match r {
                Ok(()) => !cert_entries_contain(old(self)@.timeouts, author) && final(self)@.round
                    == old(self)@.round && final(self)@.timeouts == old(self)@.timeouts.push(
                    (author, signature@),
                ),
                Err(e) => e == DagError::AuthorityReuse(author) && cert_entries_contain(
                    old(self)@.timeouts,
                    author,
                ) && *final(self) == *old(self),
            },
    {
        let n = self.timeouts.len();
        let mut i: usize = 0;
        while i < n
            invariant
                n == self.timeouts@.len(),
                i <= n,
                forall|j: int| 0 <= j < i ==> self.timeouts@[j].0 != author,
            decreases n - i,
        {
            if self.timeouts[i].0 == author {
                assert(self@.timeouts[i as int].0 == author);
                return Err(DagError::AuthorityReuse(author));
            }
            i += 1;
        }
        assert(forall|j: int| 0 <= j < n ==> self@.timeouts[j].0 != author);
        let ghost oldv = self@.timeouts;
        self.timeouts.push((author, signature));
        proof {
            assert(self@.timeouts =~= oldv.push((author, self.timeouts@.last().1@)));
        }
        Ok(())
    }
}

// ---------------------------------------------------------------------------
// No-vote messages and certificates
// ---------------------------------------------------------------------------
/// A statement by `author` that it did not vote for the leaders of
/// `round`; same shape as a timeout, different semantics.
#[derive(Debug)]
pub struct NoVoteMsg {
    pub round: Round,
    pub author: PublicKey,
    pub signature: Vec<u8>,
}

impl View for NoVoteMsg {
    type V = TimeoutView;

    open spec fn view(&self) -> TimeoutView {
        TimeoutView { round: self.round, author: self.author, signature: self.signature@ }
    }
}

impl NoVoteMsg {
    pub fn new(round: Round, author: PublicKey, signature: Vec<u8>) -> (r: NoVoteMsg)
        ensures
            r@ == (TimeoutView { round, author, signature: signature@ }),
    {
        NoVoteMsg { round, author, signature }
    }

    /// The canonical digest of this message: over its round and author.
    pub fn digest(&self) -> (r: Digest)
        ensures
            r == spec_timeout_digest(self@),
    {
        let bytes = Timeout::commit_bytes(self.round, self.author);
        let h = sha512_trunc32(&bytes);
        Digest::from_bytes(h.as_slice())
    }
}

/// Evidence that a quorum of authorities did not vote for the leaders of
/// `round`.
#[derive(Debug)]
pub struct NoVoteCert {
    pub round: Round,
    pub no_votes: Vec<(PublicKey, Vec<u8>)>,
}

impl View for NoVoteCert {
    type V = TimeoutCertView;

    open spec fn view(&self) -> TimeoutCertView {
        TimeoutCertView {
            round: self.round,
            timeouts: self.no_votes@.map_values(|e: (PublicKey, Vec<u8>)| (e.0, e.1@)),
        }
    }
}

impl NoVoteCert {
    pub fn new(round: Round) -> (r: NoVoteCert)
        ensures
            r@.round == round,
            r@.timeouts.len() == 0,
    {
        NoVoteCert { round, no_votes: Vec::new() }
    }

    /// Adds one author's no-vote signature; rejects an author that already
    /// contributed.
    pub fn add_no_vote(&mut self, author: PublicKey, signature: Vec<u8>) -> (r: DagResult<()>)
        ensures
            match r {
                Ok(()) => !cert_entries_contain(old(self)@.timeouts, author) && final(self)@.round
                    == old(self)@.round && final(self)@.timeouts == old(self)@.timeouts.push(
                    (author, signature@),
                ),
                Err(e) => e == DagError::AuthorityReuse(author) && cert_entries_contain(
                    old(self)@.timeouts,
                    author,
                ) && *final(self) == *old(self),
            },
    {
        let n = self.no_votes.len();
        let mut i: usize = 0;
        while i < n
            invariant
                n == self.no_votes@.len(),
                i <= n,
                forall|j: int| 0 <= j < i ==> self.no_votes@[j].0 != author,
            decreases n - i,
        {
            if self.no_votes[i].0 == author {
                assert(self@.timeouts[i as int].0 == author);
                return Err(DagError::AuthorityReuse(author));
            }
            i += 1;
        }
        assert(forall|j: int| 0 <= j < n ==> self@.timeouts[j].0 != author);
        let ghost oldv = self@.timeouts;
        self.no_votes.push((author, signature));
        proof {
            assert(self@.timeouts =~= oldv.push((author, self.no_votes@.last().1@)));
        }
        Ok(())
    }
}

// ---------------------------------------------------------------------------
// Headers
// ---------------------------------------------------------------------------
/// Mathematical view of a `Header`.
pub struct HeaderView {
    pub author: PublicKey,
    pub round: Round,
    pub payload: Seq<(Digest, WorkerId)>,
    pub parents: Seq<Digest>,
    pub id: Digest,
    pub timeout_cert: TimeoutCertView,
    pub no_vote_cert: TimeoutCertView,
}

/// A block header: the author's proposal for one round, carrying payload
/// batch digests and the digests of parent certificates from the previous
/// round.
#[derive(Debug)]
pub struct Header {
    pub author: PublicKey,
    pub round: Round,
    pub payload: Vec<(Digest, WorkerId)>,
    pub parents: Vec<Digest>,
    pub id: Digest,
    pub timeout_cert: TimeoutCert,
    pub no_vote_cert: NoVoteCert,
}

impl View for Header {
    type V = HeaderView;

    open spec fn view(&self) -> HeaderView {
        HeaderView {
            author: self.author,
            round: self.round,
            payload: self.payload@,
            parents: self.parents@,
            id: self.id,
            timeout_cert: self.timeout_cert@,
            no_vote_cert: self.no_vote_cert@,
        }
    }
}

/// The canonical bytes of the payload entries, in held order.
pub open spec fn payload_commit(s: Seq<(Digest, WorkerId)>) -> Seq<u8>
    decreases s.len(),
{
    if s.len() == 0 {
        Seq::empty()
    } else {
        payload_commit(s.drop_last()) + s.last().0.spec_bytes() + spec_u32_to_le_bytes(s.last().1)
    }
}

/// The canonical bytes of the parent digests, in held order.
pub open spec fn parents_commit(s: Seq<Digest>) -> Seq<u8>
    decreases s.len(),
{
    if s.len() == 0 {
        Seq::empty()
    } else {
        parents_commit(s.drop_last()) + s.last().spec_bytes()
    }
}

/// The canonical bytes a header commits to: author, round, payload entries
/// and parent digests.
pub open spec fn header_commit(h: HeaderView) -> Seq<u8> {
    h.author.spec_bytes() + spec_u64_to_le_bytes(h.round) + payload_commit(h.payload)
        + parents_commit(h.parents)
}

/// The canonical digest of a header. It does not depend on the stored
/// `id`, so computing it of a template with a placeholder id is sound.
pub open spec fn spec_header_digest(h: HeaderView) -> Digest {
    Digest::spec_from_bytes(sha512_trunc32_of(header_commit(h)))
}

/// A header is well formed when its id is its digest and its payload and
/// parents are in canonical sorted order.
pub open spec fn header_wf(h: HeaderView) -> bool {
    &&& h.id == spec_header_digest(h)
    &&& sorted_payload(h.payload)
    &&& sorted_digests(h.parents)
}

impl Header {
    /// Builds a header: puts the payload and parents into canonical order
    /// and seals the digest into `id`.
    pub fn new(
        author: PublicKey,
        round: Round,
        payload: Vec<(Digest, WorkerId)>,
        parents: Vec<Digest>,
        timeout_cert: TimeoutCert,
        no_vote_cert: NoVoteCert,
    ) -> (r: Header)
        ensures
            header_wf(r@),
            r@.author == author,
            r@.round == round,
            r@.payload.to_multiset() == payload@.to_multiset(),
            r@.parents.to_multiset() == parents@.to_multiset(),
            r@.timeout_cert == timeout_cert@,
            r@.no_vote_cert == no_vote_cert@,
    {
        let sorted_pl = sort_payload(&payload);
        let sorted_pa = sort_digests(&parents);
        let mut header = Header {
            author,
            round,
            payload: sorted_pl,
            parents: sorted_pa,
            id: Digest::zero(),
            timeout_cert,
            no_vote_cert,
        };
        let id = header.digest();
        header.id = id;
        header
    }

    /// The canonical digest of this header's contents.
    pub fn digest(&self) -> (r: Digest)
        ensures
            r == spec_header_digest(self@),
    {
        let mut bytes = self.author.to_bytes();
        let mut rb = u64_to_le_bytes(self.round);
        bytes.append(&mut rb);
        let np = self.payload.len();
        let mut i: usize = 0;
        while i < np
            invariant
                np == self.payload@.len(),
                i <= np,
                bytes@ == self.author.spec_bytes() + spec_u64_to_le_bytes(self.round)
                    + payload_commit(self.payload@.subrange(0, i as int)),
            decreases np - i,
        {
            let mut db = self.payload[i].0.to_bytes();
            let mut wb = u32_to_le_bytes(self.payload[i].1);
            bytes.append(&mut db);
            bytes.append(&mut wb);
            proof {
                assert(self.payload@.subrange(0, i + 1).drop_last() =~= self.payload@.subrange(
                    0,
                    i as int,
                ));
            }
            i += 1;
        }
        proof {
            assert(self.payload@.subrange(0, np as int) =~= self.payload@);
        }
        let ghost mid = bytes@;
        let na = self.parents.len();
        let mut j: usize = 0;
        while j < na
            invariant
                na == self.parents@.len(),
                j <= na,
                bytes@ == mid + parents_commit(self.parents@.subrange(0, j as int)),
            decreases na - j,
        {
            let mut pb = self.parents[j].to_bytes();
            bytes.append(&mut pb);
            proof {
                assert(self.parents@.subrange(0, j + 1).drop_last() =~= self.parents@.subrange(
                    0,
                    j as int,
                ));
            }
            j += 1;
        }
        proof {
            assert(self.parents@.subrange(0, na as int) =~= self.parents@);
            assert(bytes@ =~= header_commit(self@));
        }
        let h = sha512_trunc32(&bytes);
        Digest::from_bytes(h.as_slice())
    }

    /// The genesis headers of a committee: one per authority, round 0,
    /// empty payload and parents, deterministic from membership alone.
    pub fn genesis(committee: &Committee) -> (r: Vec<Header>)
        ensures
            r@.len() == committee.authorities@.len(),
            forall|i: int|
                0 <= i < r@.len() ==> r@[i]@ == spec_genesis_header(
                    committee.authorities@[i].name,
                ),
    {
        let n = committee.authorities.len();
        let mut r: Vec<Header> = Vec::new();
        let mut i: usize = 0;
        while i < n
            invariant
                n == committee.authorities@.len(),
                i <= n,
                r@.len() == i,
                forall|j: int|
                    0 <= j < i ==> r@[j]@ == spec_genesis_header(committee.authorities@[j].name),
            decreases n - i,
        {
            let name = committee.authorities[i].name;
            let h = Header::new(
                name,
                0,
                Vec::new(),
                Vec::new(),
                TimeoutCert::new(0),
                NoVoteCert::new(0),
            );
            proof {
                assert(h@.payload =~= Seq::<(Digest, WorkerId)>::empty()) by {
                    broadcast use vstd::seq_lib::group_to_multiset_ensures;

                    if h@.payload.len() > 0 {
                        assert(h@.payload.to_multiset().count(h@.payload[0]) > 0);
                        assert(Seq::<(Digest, WorkerId)>::empty().to_multiset().len() == 0);
                    }
                }
                assert(h@.parents =~= Seq::<Digest>::empty()) by {
                    broadcast use vstd::seq_lib::group_to_multiset_ensures;

                    if h@.parents.len() > 0 {
                        assert(h@.parents.to_multiset().count(h@.parents[0]) > 0);
                        assert(Seq::<Digest>::empty().to_multiset().len() == 0);
                    }
                }
                assert(h@.timeout_cert.timeouts =~= Seq::<(PublicKey, Seq<u8>)>::empty());
                assert(h@.no_vote_cert.timeouts =~= Seq::<(PublicKey, Seq<u8>)>::empty());
                assert(h@ == spec_genesis_header(name));
            }
            r.push(h);
            i += 1;
        }
        r
    }
}

/// The view of the genesis header of authority `a`: round 0, empty payload
/// and parents, empty timeout and no-vote certificates, id sealed over
/// those contents.
pub open spec fn spec_genesis_header(a: PublicKey) -> HeaderView {
    HeaderView {
        author: a,
        round: 0,
        payload: Seq::empty(),
        parents: Seq::empty(),
        id: spec_genesis_id(a),
        timeout_cert: TimeoutCertView { round: 0, timeouts: Seq::empty() },
        no_vote_cert: TimeoutCertView { round: 0, timeouts: Seq::empty() },
    }
}

/// The id of the genesis header of authority `a`.
pub open spec fn spec_genesis_id(a: PublicKey) -> Digest {
    spec_header_digest(
        HeaderView {
            author: a,
            round: 0,
            payload: Seq::empty(),
            parents: Seq::empty(),
            id: Digest::spec_zero(),
            timeout_cert: TimeoutCertView { round: 0, timeouts: Seq::empty() },
            no_vote_cert: TimeoutCertView { round: 0, timeouts: Seq::empty() },
        },
    )
}

/// Genesis is a pure function of committee membership: two committees with
/// the same authorities produce bit-for-bit the same genesis headers.
pub proof fn lemma_genesis_unique(a1: Seq<PublicKey>, a2: Seq<PublicKey>)
    requires
        a1 == a2,
    ensures
        forall|i: int|
            0 <= i < a1.len() ==> spec_genesis_header(a1[i]) == spec_genesis_header(a2[i]),
{
}

// ---------------------------------------------------------------------------
// Header info and the header sum type
// ---------------------------------------------------------------------------
/// Mathematical view of a `HeaderInfo`.
pub struct HeaderInfoView {
    pub author: PublicKey,
    pub round: Round,
    pub parents: Seq<Digest>,
    pub id: Digest,
}

/// A compact header variant that omits the payload body: enough to chase
/// parents and identify the header.
#[derive(Debug)]
pub struct HeaderInfo {
    pub author: PublicKey,
    pub round: Round,
    pub parents: Vec<Digest>,
    pub id: Digest,
}

impl View for HeaderInfo {
    type V = HeaderInfoView;

    open spec fn view(&self) -> HeaderInfoView {
        HeaderInfoView {
            author: self.author,
            round: self.round,
            parents: self.parents@,
            id: self.id,
        }
    }
}

/// Either a full header or its compact variant; what the store holds under
/// a header id.
#[derive(Debug)]
pub enum HeaderType {
    Header(Header),
    HeaderInfo(HeaderInfo),
}

impl HeaderType {
    /// The id of the header this value describes.
    pub open spec fn spec_id(self) -> Digest {
        match self {
            HeaderType::Header(h) => h.id,
            HeaderType::HeaderInfo(hi) => hi.id,
        }
    }

    /// The parent digests this value carries.
    pub open spec fn spec_parents(self) -> Seq<Digest> {
        match self {
            HeaderType::Header(h) => h.parents@,
            HeaderType::HeaderInfo(hi) => hi.parents@,
        }
    }

    pub fn id(&self) -> (r: Digest)
        ensures
            r == self.spec_id(),
    {
        match self {
            HeaderType::Header(h) => h.id,
            HeaderType::HeaderInfo(hi) => hi.id,
        }
    }

    /// A copy of the parent digests this value carries.
    pub fn parents(&self) -> (r: Vec<Digest>)
        ensures
            r@ == self.spec_parents(),
    {
        let src = match self {
            HeaderType::Header(h) => &h.parents,
            HeaderType::HeaderInfo(hi) => &hi.parents,
        };
        let n = src.len();
        let mut r: Vec<Digest> = Vec::new();
        let mut i: usize = 0;
        while i < n
            invariant
                n == src@.len(),
                i <= n,
                r@ =~= src@.subrange(0, i as int),
            decreases n - i,
        {
            r.push(src[i]);
            i += 1;
        }
        proof {
            assert(src@.subrange(0, n as int) =~= src@);
        }
        r
    }
}

// ---------------------------------------------------------------------------
// Votes
// ---------------------------------------------------------------------------
/// Mathematical view of a `Vote`.
pub struct VoteView {
    pub id: Digest,
    pub round: Round,
    pub origin: PublicKey,
    pub author: PublicKey,
    pub signature: Seq<u8>,
}

/// A vote by `author` for the header `id` proposed by `origin` at `round`,
/// carrying the author's BLS signature share over the header id.
#[derive(Debug)]
pub struct Vote {
    pub id: Digest,
    pub round: Round,
    pub origin: PublicKey,
    pub author: PublicKey,
    pub signature: Vec<u8>,
}

impl View for Vote {
    type V = VoteView;

    open spec fn view(&self) -> VoteView {
        VoteView {
            id: self.id,
            round: self.round,
            origin: self.origin,
            author: self.author,
            signature: self.signature@,
        }
    }
}

/// The canonical bytes a vote commits to: header id, round and origin.
pub open spec fn vote_commit(v: VoteView) -> Seq<u8> {
    v.id.spec_bytes() + spec_u64_to_le_bytes(v.round) + v.origin.spec_bytes()
}

/// The canonical digest of a vote.
pub open spec fn spec_vote_digest(v: VoteView) -> Digest {
    Digest::spec_from_bytes(sha512_trunc32_of(vote_commit(v)))
}

impl Vote {
    /// Builds `author`'s vote for the given header.
    pub fn new(header: &Header, author: PublicKey, signature: Vec<u8>) -> (r: Vote)
        ensures
            r@ == (VoteView {
                id: header.id,
                round: header@.round,
                origin: header@.author,
                author,
                signature: signature@,
            }),
    {
        Vote { id: header.id, round: header.round, origin: header.author, author, signature }
    }

    /// The canonical digest of this vote.
    pub fn digest(&self) -> (r: Digest)
        ensures
            r == spec_vote_digest(self@),
    {
        let mut bytes = self.id.to_bytes();
        let mut rb = u64_to_le_bytes(self.round);
        let mut ob = self.origin.to_bytes();
        bytes.append(&mut rb);
        bytes.append(&mut ob);
        let h = sha512_trunc32(&bytes);
        Digest::from_bytes(h.as_slice())
    }
}

// ---------------------------------------------------------------------------
// Certificates
// ---------------------------------------------------------------------------
/// Mathematical view of a `Certificate`.
pub struct CertificateView {
    pub header_id: Digest,
    pub round: Round,
    pub origin: PublicKey,
    pub bitmap: Seq<u128>,
    pub agg_signature: Seq<u8>,
}

/// Attestation that a quorum voted for the header `header_id`: a bitmap of
/// contributors (a cleared bit means the authority at that canonical
/// position contributed) and one aggregated BLS signature.
#[derive(Debug)]
pub struct Certificate {
    pub header_id: Digest,
    pub round: Round,
    pub origin: PublicKey,
    pub bitmap: Vec<u128>,
    pub agg_signature: Vec<u8>,
}

impl View for Certificate {
    type V = CertificateView;

    open spec fn view(&self) -> CertificateView {
        CertificateView {
            header_id: self.header_id,
            round: self.round,
            origin: self.origin,
            bitmap: self.bitmap@,
            agg_signature: self.agg_signature@,
        }
    }
}

/// The canonical bytes a certificate commits to: header id, round and
/// origin.
pub open spec fn certificate_commit(c: CertificateView) -> Seq<u8> {
    c.header_id.spec_bytes() + spec_u64_to_le_bytes(c.round) + c.origin.spec_bytes()
}

/// The canonical digest of a certificate.
pub open spec fn spec_certificate_digest(c: CertificateView) -> Digest {
    Digest::spec_from_bytes(sha512_trunc32_of(certificate_commit(c)))
}

impl Certificate {
    /// The round the certified header belongs to.
    pub fn round(&self) -> (r: Round)
        ensures
            r == self@.round,
    {
        self.round
    }

    /// The author of the certified header.
    pub fn origin(&self) -> (r: PublicKey)
        ensures
            r == self@.origin,
    {
        self.origin
    }

    /// The canonical digest of this certificate.
    pub fn digest(&self) -> (r: Digest)
        ensures
            r == spec_certificate_digest(self@),
    {
        let mut bytes = self.header_id.to_bytes();
        let mut rb = u64_to_le_bytes(self.round);
        let mut ob = self.origin.to_bytes();
        bytes.append(&mut rb);
        bytes.append(&mut ob);
        let h = sha512_trunc32(&bytes);
        Digest::from_bytes(h.as_slice())
    }

    /// The genesis certificates of a committee: one per authority, round 0,
    /// certifying the authority's genesis header with no votes.
    pub fn genesis(committee: &Committee) -> (r: Vec<Certificate>)
        ensures
            r@.len() == committee.authorities@.len(),
            forall|i: int|
                0 <= i < r@.len() ==> r@[i]@ == spec_genesis_certificate(
                    committee.authorities@[i].name,
                ),
    {
        let n = committee.authorities.len();
        let mut r: Vec<Certificate> = Vec::new();
        let mut i: usize = 0;
        while i < n
            invariant
                n == committee.authorities@.len(),
                i <= n,
                r@.len() == i,
                forall|j: int|
                    0 <= j < i ==> r@[j]@ == spec_genesis_certificate(
                        committee.authorities@[j].name,
                    ),
            decreases n - i,
        {
            let name = committee.authorities[i].name;
            let ghost gname = name;
            let header = Header::new(
                name,
                0,
                Vec::new(),
                Vec::new(),
                TimeoutCert::new(0),
                NoVoteCert::new(0),
            );
            let c = Certificate {
                header_id: header.id,
                round: 0,
                origin: name,
                bitmap: Vec::new(),
                agg_signature: Vec::new(),
            };
            proof {
                assert(header@.payload =~= Seq::<(Digest, WorkerId)>::empty()) by {
                    broadcast use vstd::seq_lib::group_to_multiset_ensures;

                    if header@.payload.len() > 0 {
                        assert(header@.payload.to_multiset().count(header@.payload[0]) > 0);
                    }
                }
                assert(header@.parents =~= Seq::<Digest>::empty()) by {
                    broadcast use vstd::seq_lib::group_to_multiset_ensures;

                    if header@.parents.len() > 0 {
                        assert(header@.parents.to_multiset().count(header@.parents[0]) > 0);
                    }
                }
                assert(header_commit(header@) == header_commit(spec_genesis_header(gname)));
                assert(c@ == spec_genesis_certificate(gname)) by {
                    assert(c@.bitmap =~= Seq::<u128>::empty());
                    assert(c@.agg_signature =~= Seq::<u8>::empty());
                }
            }
            r.push(c);
            i += 1;
        }
        r
    }
}

impl PartialEq for Certificate {
    /// Two certificates attest the same thing when they certify the same
    /// header at the same round from the same origin; the vote sets may
    /// differ.
    fn eq(&self, other: &Certificate) -> (r: bool) {
        self.header_id == other.header_id && self.round == other.round && self.origin
            == other.origin
    }
}

impl vstd::std_specs::cmp::PartialEqSpecImpl for Certificate {
    open spec fn obeys_eq_spec() -> bool {
        true
    }

    open spec fn eq_spec(&self, other: &Certificate) -> bool {
        self.header_id == other.header_id && self.round == other.round && self.origin
            == other.origin
    }
}

/// The view of the genesis certificate of authority `a`.
pub open spec fn spec_genesis_certificate(a: PublicKey) -> CertificateView {
    CertificateView {
        header_id: spec_genesis_id(a),
        round: 0,
        origin: a,
        bitmap: Seq::empty(),
        agg_signature: Seq::empty(),
    }
}

/// A copy of a payload entry list.
pub fn clone_payload(v: &Vec<(Digest, WorkerId)>) -> (r: Vec<(Digest, WorkerId)>)
    ensures
        r@ == v@,
{
    let n = v.len();
    let mut r: Vec<(Digest, WorkerId)> = Vec::new();
    let mut i: usize = 0;
    while i < n
        invariant
            n == v@.len(),
            i <= n,
            r@ =~= v@.subrange(0, i as int),
        decreases n - i,
    {
        r.push(v[i]);
        i += 1;
    }
    proof {
        assert(v@.subrange(0, n as int) =~= v@);
    }
    r
}

/// A copy of a digest list.
pub fn clone_digests(v: &Vec<Digest>) -> (r: Vec<Digest>)
    ensures
        r@ == v@,
{
    let n = v.len();
    let mut r: Vec<Digest> = Vec::new();
    let mut i: usize = 0;
    while i < n
        invariant
            n == v@.len(),
            i <= n,
            r@ =~= v@.subrange(0, i as int),
        decreases n - i,
    {
        r.push(v[i]);
        i += 1;
    }
    proof {
        assert(v@.subrange(0, n as int) =~= v@);
    }
    r
}

/// A copy of a timeout certificate.
pub fn clone_timeout_cert(tc: &TimeoutCert) -> (r: TimeoutCert)
    ensures
        r@ == tc@,
{
    let r = TimeoutCert {
        round: tc.round,
        timeouts: crate::aggregators::clone_entries(&tc.timeouts),
    };
    proof {
        assert(r@.timeouts =~= tc@.timeouts);
    }
    r
}

/// A copy of a no-vote certificate.
pub fn clone_no_vote_cert(tc: &NoVoteCert) -> (r: NoVoteCert)
    ensures
        r@ == tc@,
{
    let r = NoVoteCert {
        round: tc.round,
        no_votes: crate::aggregators::clone_entries(&tc.no_votes),
    };
    proof {
        assert(r@.timeouts =~= tc@.timeouts);
    }
    r
}

} // verus!
