//! The proposer: builds this node's next header once the previous
//! round's parents are ready, and emits at most one header per round.

use crate::messages::{Header, NoVoteCert, TimeoutCert};
use crate::types::{Digest, PublicKey, Round, WorkerId};
use vstd::prelude::*;

verus! {

/// Builds headers for this node, guarded so that no round gets two.
pub struct Proposer {
    /// The public key of this primary.
    pub name: PublicKey,
    /// The highest round this node has proposed a header for.
    pub last_proposed_round: Round,
}

impl Proposer {
    pub fn new(name: PublicKey) -> (r: Proposer)
        ensures
            r.name == name,
            r.last_proposed_round == 0,
    {
        Proposer { name, last_proposed_round: 0 }
    }

    /// Builds the header for `round` from the chosen parents and payload,
    /// attaching the timeout and no-vote certificates when the protocol
    /// branch requires them. Emits at most one header per round: a round
    /// not above the last proposed one yields nothing.
    pub fn make_header(
        &mut self,
        round: Round,
        payload: Vec<(Digest, WorkerId)>,
        parents: Vec<Digest>,
        timeout_cert: TimeoutCert,
        no_vote_cert: NoVoteCert,
    ) -> (r: Option<Header>)
        ensures
            final(self).name == old(self).name,
            final(self).last_proposed_round >= old(self).last_proposed_round,
            match r {
                Some(h) => {
                    &&& round > old(self).last_proposed_round
                    &&& final(self).last_proposed_round == round
                    &&& h@.author == old(self).name
                    &&& h@.round == round
                    &&& crate::messages::header_wf(h@)
                    &&& h@.payload.to_multiset() == payload@.to_multiset()
                    &&& h@.parents.to_multiset() == parents@.to_multiset()
                    &&& h@.timeout_cert == timeout_cert@
                    &&& h@.no_vote_cert == no_vote_cert@
                },
                None => round <= old(self).last_proposed_round && final(self).last_proposed_round
                    == old(self).last_proposed_round,
            },
    {
        if round <= self.last_proposed_round {
            return None;
        }
        self.last_proposed_round = round;
        Some(Header::new(self.name, round, payload, parents, timeout_cert, no_vote_cert))
    }
}

/// A header emission for a round: the round is above the previous guard
/// and becomes the new guard.
pub open spec fn header_emission(pre_guard: Round, round: Round, post_guard: Round) -> bool {
    round > pre_guard && post_guard == round
}

/// Single proposal per round: along any run of the proposer, in which the
/// guard never decreases between emissions, two emitted headers never
/// share a round. `make_header` ensures each emission satisfies
/// `header_emission` and that the guard is non-decreasing.
pub proof fn lemma_single_proposal_per_round(g0: Round, r1: Round, g1: Round, g2: Round, r2: Round, g3: Round)
    requires
        header_emission(g0, r1, g1),
        g1 <= g2,
        header_emission(g2, r2, g3),
    ensures
        r2 != r1,
{
}

} // verus!
