//! The waiters: park items whose dependencies are missing from storage
//! and release them once every dependency is present.
//!
//! The asynchronous runtime around the library watches the store and
//! calls `drain_ready` after writes; the decision of what to wait for and
//! when an item is releasable lives here.

use crate::codec::decode_header_type;
use crate::messages::{Certificate, HeaderType};
use crate::store::Store;
use crate::synchronizer::header_store_wf;
use crate::types::Digest;
use vstd::prelude::*;

verus! {

/// All dependencies of an entry are present in the store.
pub open spec fn deps_ready(store: Store, deps: Seq<Digest>) -> bool {
    forall|i: int| 0 <= i < deps.len() ==> store.spec_contains(deps[i])
}

/// Parks certificates until every ancestor is available, then releases
/// them for reprocessing.
pub struct CertificateWaiter {
    /// The parked certificates, each with the digests it waits for.
    pub pending: Vec<(Vec<Digest>, Certificate)>,
}

/// The pending entries whose dependencies are all present, in order.
pub open spec fn ready_certs(store: Store, s: Seq<(Vec<Digest>, Certificate)>) -> Seq<Certificate>
    decreases s.len(),
{
    if s.len() == 0 {
        Seq::empty()
    } else if deps_ready(store, s.last().0@) {
        ready_certs(store, s.drop_last()).push(s.last().1)
    } else {
        ready_certs(store, s.drop_last())
    }
}

/// The pending entries that still wait, in order.
pub open spec fn blocked_certs(store: Store, s: Seq<(Vec<Digest>, Certificate)>) -> Seq<
    (Vec<Digest>, Certificate),
>
    decreases s.len(),
{
    if s.len() == 0 {
        Seq::empty()
    } else if deps_ready(store, s.last().0@) {
        blocked_certs(store, s.drop_last())
    } else {
        blocked_certs(store, s.drop_last()).push(s.last())
    }
}

impl CertificateWaiter {
    pub fn new() -> (r: CertificateWaiter)
        ensures
            r.pending@.len() == 0,
    {
        CertificateWaiter { pending: Vec::new() }
    }

    /// Parks a certificate. If the referenced header is stored, the
    /// dependencies are that header's parents; otherwise the one
    /// dependency is the header id itself, so the waiter fires when the
    /// header arrives.
    pub fn park(&mut self, store: &Store, certificate: Certificate)
        requires
            store.wf(),
            header_store_wf(*store),
        ensures
            final(self).pending@.len() == old(self).pending@.len() + 1,
            final(self).pending@.subrange(0, old(self).pending@.len() as int) == old(
                self,
            ).pending@,
            final(self).pending@.last().1 == certificate,
            !store.spec_contains(certificate@.header_id) ==> final(self).pending@.last().0@
                == seq![certificate@.header_id],
            store.spec_contains(certificate@.header_id) ==> final(self).pending@.last().0@
                == crate::synchronizer::view_parents(
                crate::synchronizer::stored_header(*store, certificate@.header_id),
            ),
    {
        let deps: Vec<Digest> = match store.read(&certificate.header_id) {
            Some(bytes) => {
                match decode_header_type(bytes) {
                    Some(ht) => {
                        proof {
                            crate::synchronizer::lemma_stored_decodes(
                                *store,
                                certificate@.header_id,
                            );
                            assert(crate::synchronizer::stored_header(
                                *store,
                                certificate@.header_id,
                            ) == crate::codec::header_type_view(ht));
                            assert(ht.spec_parents() == crate::synchronizer::view_parents(
                                crate::codec::header_type_view(ht),
                            ));
                        }
                        ht.parents()
                    },
                    None => {
                        proof {
                            crate::synchronizer::lemma_stored_decodes(
                                *store,
                                certificate@.header_id,
                            );
                            assert(false);
                        }
                        Vec::new()
                    },
                }
            },
            None => {
                let mut v: Vec<Digest> = Vec::new();
                v.push(certificate.header_id);
                proof {
                    assert(v@ =~= seq![certificate@.header_id]);
                }
                v
            },
        };
        self.pending.push((deps, certificate));
        proof {
            assert(final(self).pending@.subrange(0, old(self).pending@.len() as int) =~= old(
                self,
            ).pending@);
        }
    }

    /// Releases every parked certificate whose dependencies are now all
    /// present; the blocked ones stay parked, in order.
    pub fn drain_ready(&mut self, store: &Store) -> (r: Vec<Certificate>)
        requires
            store.wf(),
        ensures
            r@ == ready_certs(*store, old(self).pending@),
            final(self).pending@ == blocked_certs(*store, old(self).pending@),
    {
        let mut kept: Vec<(Vec<Digest>, Certificate)> = Vec::new();
        let mut out: Vec<Certificate> = Vec::new();
        let mut work: Vec<(Vec<Digest>, Certificate)> = Vec::new();
        core::mem::swap(&mut work, &mut self.pending);
        let ghost w0 = work@;
        let n = work.len();
        let mut k: usize = 0;
        while k < n
            invariant
                store.wf(),
                n == w0.len(),
                k <= n,
                work@ == w0.subrange(k as int, n as int),
                out@ == ready_certs(*store, w0.subrange(0, k as int)),
                kept@ == blocked_certs(*store, w0.subrange(0, k as int)),
            decreases n - k,
        {
            proof {
                assert(w0.subrange(0, k + 1).drop_last() =~= w0.subrange(0, k as int));
                assert(w0.subrange(0, k + 1).last() == w0[k as int]);
            }
            let entry = work.remove(0);
            proof {
                assert(entry == w0[k as int]) by {
                    assert(w0.subrange(k as int, n as int)[0] == w0[k as int]);
                }
                assert(work@ =~= w0.subrange(k + 1, n as int));
            }
            let m = entry.0.len();
            let mut j: usize = 0;
            let mut all_present = true;
            while j < m
                invariant
                    store.wf(),
                    m == entry.0@.len(),
                    j <= m,
                    all_present ==> forall|t: int| 0 <= t < j ==> store.spec_contains(entry.0@[t]),
                    !all_present ==> !deps_ready(*store, entry.0@),
                decreases m - j,
            {
                if !store.contains(&entry.0[j]) {
                    assert(!deps_ready(*store, entry.0@));
                    all_present = false;
                    j = m;
                } else {
                    j += 1;
                }
            }
            if all_present {
                proof {
                    assert(deps_ready(*store, w0[k as int].0@));
                }
                out.push(entry.1);
            } else {
                kept.push(entry);
            }
            k += 1;
        }
        proof {
            assert(w0.subrange(0, n as int) =~= w0);
        }
        self.pending = kept;
        out
    }
}

/// A copy of a certificate.
pub fn duplicate_certificate(c: &Certificate) -> (r: Certificate)
    ensures
        r@ == c@,
{
    Certificate {
        header_id: c.header_id,
        round: c.round,
        origin: c.origin,
        bitmap: crate::aggregators::clone_words(&c.bitmap),
        agg_signature: crate::committee::clone_bytes(&c.agg_signature),
    }
}

/// Parks headers whose parents are missing, keyed by the missing digests,
/// and releases them once those digests are written.
pub struct HeaderWaiter {
    /// The parked headers, each with the digests it waits for.
    pub pending: Vec<(Vec<Digest>, HeaderType)>,
}

/// The pending headers whose dependencies are all present, in order.
pub open spec fn ready_headers(store: Store, s: Seq<(Vec<Digest>, HeaderType)>) -> Seq<HeaderType>
    decreases s.len(),
{
    if s.len() == 0 {
        Seq::empty()
    } else if deps_ready(store, s.last().0@) {
        ready_headers(store, s.drop_last()).push(s.last().1)
    } else {
        ready_headers(store, s.drop_last())
    }
}

/// The pending headers that still wait, in order.
pub open spec fn blocked_headers(store: Store, s: Seq<(Vec<Digest>, HeaderType)>) -> Seq<
    (Vec<Digest>, HeaderType),
>
    decreases s.len(),
{
    if s.len() == 0 {
        Seq::empty()
    } else if deps_ready(store, s.last().0@) {
        blocked_headers(store, s.drop_last())
    } else {
        blocked_headers(store, s.drop_last()).push(s.last())
    }
}

impl HeaderWaiter {
    pub fn new() -> (r: HeaderWaiter)
        ensures
            r.pending@.len() == 0,
    {
        HeaderWaiter { pending: Vec::new() }
    }

    /// Parks a header with the parent digests it waits for.
    pub fn park(&mut self, missing: Vec<Digest>, header: HeaderType)
        ensures
            final(self).pending@.len() == old(self).pending@.len() + 1,
            final(self).pending@.subrange(0, old(self).pending@.len() as int) == old(
                self,
            ).pending@,
            final(self).pending@.last().0@ == missing@,
            final(self).pending@.last().1 == header,
    {
        self.pending.push((missing, header));
        proof {
            assert(final(self).pending@.subrange(0, old(self).pending@.len() as int) =~= old(
                self,
            ).pending@);
        }
    }

    /// Releases every parked header whose dependencies are now present;
    /// the released entries leave the pool, the blocked ones stay, in
    /// order.
    pub fn drain_ready(&mut self, store: &Store) -> (r: Vec<HeaderType>)
        requires
            store.wf(),
        ensures
            r@ == ready_headers(*store, old(self).pending@),
            final(self).pending@ == blocked_headers(*store, old(self).pending@),
    {
        let mut kept: Vec<(Vec<Digest>, HeaderType)> = Vec::new();
        let mut out: Vec<HeaderType> = Vec::new();
        let mut work: Vec<(Vec<Digest>, HeaderType)> = Vec::new();
        core::mem::swap(&mut work, &mut self.pending);
        let ghost w0 = work@;
        let n = work.len();
        let mut k: usize = 0;
        while k < n
            invariant
                store.wf(),
                n == w0.len(),
                k <= n,
                work@ == w0.subrange(k as int, n as int),
                out@ == ready_headers(*store, w0.subrange(0, k as int)),
                kept@ == blocked_headers(*store, w0.subrange(0, k as int)),
            decreases n - k,
        {
            proof {
                assert(w0.subrange(0, k + 1).drop_last() =~= w0.subrange(0, k as int));
                assert(w0.subrange(0, k + 1).last() == w0[k as int]);
            }
            let entry = work.remove(0);
            proof {
                assert(entry == w0[k as int]) by {
                    assert(w0.subrange(k as int, n as int)[0] == w0[k as int]);
                }
                assert(work@ =~= w0.subrange(k + 1, n as int));
            }
            let m = entry.0.len();
            let mut j: usize = 0;
            let mut all_present = true;
            while j < m
                invariant
                    store.wf(),
                    m == entry.0@.len(),
                    j <= m,
                    all_present ==> forall|t: int| 0 <= t < j ==> store.spec_contains(entry.0@[t]),
                    !all_present ==> !deps_ready(*store, entry.0@),
                decreases m - j,
            {
                if !store.contains(&entry.0[j]) {
                    assert(!deps_ready(*store, entry.0@));
                    all_present = false;
                    j = m;
                } else {
                    j += 1;
                }
            }
            if all_present {
                proof {
                    assert(deps_ready(*store, w0[k as int].0@));
                }
                out.push(entry.1);
            } else {
                kept.push(entry);
            }
            k += 1;
        }
        proof {
            assert(w0.subrange(0, n as int) =~= w0);
        }
        self.pending = kept;
        out
    }
}

/// A copy of a header sum value, preserving its view.
pub fn duplicate_header_type(ht: &HeaderType) -> (r: HeaderType)
    ensures
        crate::codec::header_type_view(r) == crate::codec::header_type_view(*ht),
        r.spec_id() == ht.spec_id(),
        r.spec_parents() == ht.spec_parents(),
{
    match ht {
        HeaderType::Header(h) => {
            let r = crate::messages::Header {
                author: h.author,
                round: h.round,
                payload: crate::messages::clone_payload(&h.payload),
                parents: crate::messages::clone_digests(&h.parents),
                id: h.id,
                timeout_cert: crate::messages::clone_timeout_cert(&h.timeout_cert),
                no_vote_cert: crate::messages::clone_no_vote_cert(&h.no_vote_cert),
            };
            HeaderType::Header(r)
        },
        HeaderType::HeaderInfo(h) => {
            let r = crate::messages::HeaderInfo {
                author: h.author,
                round: h.round,
                parents: crate::messages::clone_digests(&h.parents),
                id: h.id,
            };
            HeaderType::HeaderInfo(r)
        },
    }
}

} // verus!
