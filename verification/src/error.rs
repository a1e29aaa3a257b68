//! Validation errors of the primary. All of them are reported to the
//! caller and the offending message is dropped; none is fatal.

use crate::types::{Digest, PublicKey, Round};
use vstd::prelude::*;

verus! {

/// A validation error raised while handling an inbound message.
#[derive(Clone, Copy, PartialEq, Eq, Structural, Debug)]
pub enum DagError {
    /// The same authority contributed twice to one aggregation scope.
    AuthorityReuse(PublicKey),
    /// The author is not a member of the committee.
    UnknownAuthority(PublicKey),
    /// A signature or signature aggregate failed verification.
    InvalidSignature,
    /// A header broke a structural rule; carries the header id.
    MalformedHeader(Digest),
    /// The message's round is below the garbage-collection horizon.
    StaleRound(Round),
}

/// Result of handling an inbound message.
pub type DagResult<T> = Result<T, DagError>;

} // verus!
