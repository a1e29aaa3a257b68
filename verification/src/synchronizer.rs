//! The synchronizer: decides whether a header's parents or a
//! certificate's ancestors are locally available. Missing dependencies
//! are reported to the caller, which parks the item in a waiter.

use crate::codec::{dec_header_type, decode_header_type, HeaderTypeView};
use crate::committee::Committee;
use crate::messages::{Certificate, Header, HeaderType};
use crate::store::Store;
use crate::types::{Digest, PublicKey};
use vstd::prelude::*;

verus! {

/// The bytes decode as one complete header sum value with nothing left
/// over.
pub open spec fn decodes_fully(bytes: Seq<u8>) -> bool {
    match dec_header_type(bytes, 0) {
        Some((v, e)) => e == bytes.len(),
        None => false,
    }
}

/// Every value in the store decodes as a complete header sum value: the
/// store is only written through the header codec.
pub open spec fn header_store_wf(s: Store) -> bool {
    forall|i: int| 0 <= i < s.entries@.len() ==> decodes_fully(#[trigger] s.entries@[i].1@)
}

/// The header sum value stored under a present key.
pub open spec fn stored_header(s: Store, d: Digest) -> HeaderTypeView {
    dec_header_type(s.spec_value(d), 0).unwrap().0
}

/// A present key of a well-formed header store holds fully-decoding
/// bytes.
pub proof fn lemma_stored_decodes(s: Store, d: Digest)
    requires
        s.wf(),
        header_store_wf(s),
        s.spec_contains(d),
    ensures
        decodes_fully(s.spec_value(d)),
        dec_header_type(s.spec_value(d), 0) == Some(
            (stored_header(s, d), s.spec_value(d).len() as int),
        ),
{
    let w = choose|w: int| 0 <= w < s.entries@.len() && s.entries@[w].0 == d;
    assert(decodes_fully(s.entries@[w].1@));
    assert(s.spec_value(d) == s.entries@[w].1@);
    let pr = dec_header_type(s.spec_value(d), 0).unwrap();
    assert(dec_header_type(s.spec_value(d), 0) == Some((pr.0, pr.1)));
}

/// The parent digests of a header sum view.
pub open spec fn view_parents(v: HeaderTypeView) -> Seq<Digest> {
    match v {
        HeaderTypeView::Header(h) => h.parents,
        HeaderTypeView::HeaderInfo(h) => h.parents,
    }
}

/// The author of a header sum view.
pub open spec fn view_author(v: HeaderTypeView) -> PublicKey {
    match v {
        HeaderTypeView::Header(h) => h.author,
        HeaderTypeView::HeaderInfo(h) => h.author,
    }
}

/// A resolved parent stands for the digest `d`: a genesis digest
/// resolves to a full header bearing that id, any other digest to the
/// value stored under it.
pub open spec fn parent_resolves(
    sync: Synchronizer,
    store: Store,
    d: Digest,
    ht: HeaderType,
) -> bool {
    if sync.spec_genesis_has(d) {
        &&& ht is Header
        &&& ht.spec_id() == d
        &&& view_author(crate::codec::header_type_view(ht)) == sync.resolved_author(store, d)
    } else {
        &&& store.spec_contains(d)
        &&& crate::codec::header_type_view(ht) == stored_header(store, d)
    }
}

/// The outcome of a parent lookup: all parents resolved, or the list of
/// missing digests to wait for.
pub enum ParentsOutcome {
    Ready(Vec<HeaderType>),
    Missing(Vec<Digest>),
}

/// The synchronizer: holds this node's identity and the genesis headers,
/// and answers availability questions against the store.
pub struct Synchronizer {
    /// The public key of this primary.
    pub name: PublicKey,
    /// The genesis headers keyed by their digest.
    pub genesis: Vec<(Digest, Header)>,
}

impl Synchronizer {
    /// Well-formedness: each genesis pair keys a header by its own id.
    pub open spec fn wf(self) -> bool {
        forall|i: int|
            0 <= i < self.genesis@.len() ==> #[trigger] self.genesis@[i].0 == self.genesis@[i].1.id
    }

    /// Whether `d` is the digest of a genesis header.
    pub open spec fn spec_genesis_has(self, d: Digest) -> bool {
        exists|i: int| 0 <= i < self.genesis@.len() && self.genesis@[i].0 == d
    }

    /// `i` is the first genesis entry keyed by `d`.
    pub open spec fn genesis_first_at(self, d: Digest, i: int) -> bool {
        &&& 0 <= i < self.genesis@.len()
        &&& self.genesis@[i].0 == d
        &&& forall|j: int| 0 <= j < i ==> self.genesis@[j].0 != d
    }

    /// The first genesis entry keyed by `d`.
    pub open spec fn genesis_first(self, d: Digest) -> int {
        choose|i: int| self.genesis_first_at(d, i)
    }

    /// The author a dependency resolves to: the matching genesis header's
    /// author, or the author of the stored header under it.
    pub open spec fn resolved_author(self, store: Store, d: Digest) -> PublicKey {
        if self.spec_genesis_has(d) {
            self.genesis@[self.genesis_first(d)].1.author
        } else {
            view_author(stored_header(store, d))
        }
    }

    /// The authors a dependency list resolves to, in order.
    pub open spec fn resolved_authors(self, store: Store, deps: Seq<Digest>) -> Seq<PublicKey> {
        Seq::new(deps.len(), |i: int| self.resolved_author(store, deps[i]))
    }

    /// A dependency is missing when it is neither genesis nor stored.
    pub open spec fn spec_missing(self, store: Store, d: Digest) -> bool {
        !self.spec_genesis_has(d) && !store.spec_contains(d)
    }

    /// The missing members of a dependency list, in order.
    pub open spec fn missing_of(self, store: Store, deps: Seq<Digest>) -> Seq<Digest>
        decreases deps.len(),
    {
        if deps.len() == 0 {
            Seq::empty()
        } else if self.spec_missing(store, deps.last()) {
            self.missing_of(store, deps.drop_last()).push(deps.last())
        } else {
            self.missing_of(store, deps.drop_last())
        }
    }

    pub fn new(name: PublicKey, committee: &Committee) -> (r: Synchronizer)
        ensures
            r.wf(),
            r.name == name,
            r.genesis@.len() == committee.authorities@.len(),
            forall|i: int|
                0 <= i < r.genesis@.len() ==> r.genesis@[i].1@ == crate::messages::spec_genesis_header(
                    committee.authorities@[i].name,
                ) && r.genesis@[i].0 == r.genesis@[i].1.id,
    {
        let headers = Header::genesis(committee);
        let mut genesis: Vec<(Digest, Header)> = Vec::new();
        let n = headers.len();
        let mut hs = headers;
        let mut i: usize = 0;
        while i < n
            invariant
                n == hs@.len() + genesis@.len(),
                genesis@.len() == i,
                i <= n,
                forall|j: int|
                    0 <= j < hs@.len() ==> hs@[j]@ == crate::messages::spec_genesis_header(
                        committee.authorities@[j + i].name,
                    ),
                forall|j: int|
                    0 <= j < i ==> genesis@[j].1@ == crate::messages::spec_genesis_header(
                        committee.authorities@[j].name,
                    ) && genesis@[j].0 == genesis@[j].1.id,
            decreases n - i,
        {
            let h = hs.remove(0);
            let id = h.id;
            genesis.push((id, h));
            i += 1;
        }
        Synchronizer { name, genesis }
    }

    /// Looks `d` up among the genesis headers.
    fn genesis_lookup(&self, d: &Digest) -> (r: Option<&Header>)
        requires
            self.wf(),
        ensures
            match r {
                Some(h) => self.spec_genesis_has(*d) && h.id == *d && *h == self.genesis@[
                    self.genesis_first(*d)].1,
                None => !self.spec_genesis_has(*d),
            },
    {
        let n = self.genesis.len();
        let mut i: usize = 0;
        while i < n
            invariant
                self.wf(),
                n == self.genesis@.len(),
                i <= n,
                forall|j: int| 0 <= j < i ==> self.genesis@[j].0 != *d,
            decreases n - i,
        {
            if self.genesis[i].0 == *d {
                assert(self.genesis@[i as int].0 == *d);
                proof {
                    assert(self.genesis_first_at(*d, i as int));
                    let w = self.genesis_first(*d);
                    assert(self.genesis_first_at(*d, w));
                    assert(w == i);
                }
                return Some(&self.genesis[i].1);
            }
            i += 1;
        }
        None
    }

    /// Resolves the parents of a header. Genesis digests resolve to the
    /// local genesis headers; other digests are looked up in the store.
    /// If any parent is missing, returns exactly the missing digests, in
    /// parent order, for the caller to wait on.
    pub fn get_parents(&self, store: &Store, header_msg: &HeaderType) -> (r: ParentsOutcome)
        requires
            self.wf(),
            store.wf(),
            header_store_wf(*store),
        ensures
            match r {
                ParentsOutcome::Ready(ps) => self.missing_of(
                    *store,
                    header_msg.spec_parents(),
                ).len() == 0 && ps@.len() == header_msg.spec_parents().len() && forall|j: int|
                    0 <= j < ps@.len() ==> parent_resolves(
                        *self,
                        *store,
                        header_msg.spec_parents()[j],
                        #[trigger] ps@[j],
                    ),
                ParentsOutcome::Missing(m) => m@ == self.missing_of(
                    *store,
                    header_msg.spec_parents(),
                ) && m@.len() > 0,
            },
    {
        let parents = header_msg.parents();
        let n = parents.len();
        let mut resolved: Vec<HeaderType> = Vec::new();
        let mut missing: Vec<Digest> = Vec::new();
        let mut i: usize = 0;
        while i < n
            invariant
                self.wf(),
                store.wf(),
                header_store_wf(*store),
                n == parents@.len(),
                parents@ == header_msg.spec_parents(),
                i <= n,
                missing@ == self.missing_of(*store, parents@.subrange(0, i as int)),
                missing@.len() + resolved@.len() == i,
                missing@.len() == 0 ==> resolved@.len() == i && forall|j: int|
                    0 <= j < i ==> parent_resolves(*self, *store, parents@[j], #[trigger] resolved@[j]),
            decreases n - i,
        {
            proof {
                assert(parents@.subrange(0, i + 1).drop_last() =~= parents@.subrange(0, i as int));
            }
            let d = parents[i];
            match self.genesis_lookup(&d) {
                Some(g) => {
                    let gh = Header {
                        author: g.author,
                        round: g.round,
                        payload: crate::messages::clone_payload(&g.payload),
                        parents: crate::messages::clone_digests(&g.parents),
                        id: g.id,
                        timeout_cert: crate::messages::clone_timeout_cert(&g.timeout_cert),
                        no_vote_cert: crate::messages::clone_no_vote_cert(&g.no_vote_cert),
                    };
                    proof {
                        assert(gh.author == self.genesis@[self.genesis_first(d)].1.author);
                        assert(parent_resolves(*self, *store, d, HeaderType::Header(gh)));
                    }
                    resolved.push(HeaderType::Header(gh));
                },
                None => {
                    match store.read(&d) {
                        Some(bytes) => {
                            match decode_header_type(bytes) {
                                Some(ht) => {
                                    proof {
                                        lemma_stored_decodes(*store, d);
                                        assert(crate::codec::header_type_view(ht) == stored_header(
                                            *store,
                                            d,
                                        ));
                                        assert(parent_resolves(*self, *store, d, ht));
                                    }
                                    resolved.push(ht);
                                },
                                None => {
                                    proof {
                                        lemma_stored_decodes(*store, d);
                                        assert(false);
                                    }
                                },
                            }
                        },
                        None => {
                            missing.push(d);
                        },
                    }
                },
            }
            i += 1;
        }
        proof {
            assert(parents@.subrange(0, n as int) =~= parents@);
        }
        if missing.len() == 0 {
            ParentsOutcome::Ready(resolved)
        } else {
            ParentsOutcome::Missing(missing)
        }
    }

    /// Whether all ancestors of the certificate are locally available: the
    /// referenced header is stored and each of its parents is genesis or
    /// stored. A certificate that is not deliverable is handed to the
    /// certificate waiter by the caller.
    pub fn deliver_certificate(&self, store: &Store, certificate: &Certificate) -> (r: bool)
        requires
            self.wf(),
            store.wf(),
            header_store_wf(*store),
        ensures
            r == self.spec_deliverable(*store, certificate@.header_id),
    {
        match store.read(&certificate.header_id) {
            None => false,
            Some(bytes) => {
                match decode_header_type(bytes) {
                    None => {
                        proof {
                            lemma_stored_decodes(*store, certificate@.header_id);
                            assert(false);
                        }
                        false
                    },
                    Some(ht) => {
                        let parents = ht.parents();
                        let n = parents.len();
                        let mut i: usize = 0;
                        proof {
                            lemma_stored_decodes(*store, certificate@.header_id);
                            assert(stored_header(*store, certificate@.header_id)
                                == crate::codec::header_type_view(ht));
                        }
                        while i < n
                            invariant
                                self.wf(),
                                store.wf(),
                                n == parents@.len(),
                                parents@ == view_parents(
                                    stored_header(*store, certificate@.header_id),
                                ),
                                i <= n,
                                forall|j: int|
                                    0 <= j < i ==> !self.spec_missing(*store, parents@[j]),
                            decreases n - i,
                        {
                            let d = parents[i];
                            match self.genesis_lookup(&d) {
                                Some(_) => {},
                                None => {
                                    if !store.contains(&d) {
                                        return false;
                                    }
                                },
                            }
                            i += 1;
                        }
                        true
                    },
                }
            },
        }
    }

    /// A certificate's dependencies are available: its header is stored
    /// and every parent of that header is genesis or stored.
    pub open spec fn spec_deliverable(self, store: Store, header_id: Digest) -> bool {
        &&& store.spec_contains(header_id)
        &&& forall|j: int|
            0 <= j < view_parents(stored_header(store, header_id)).len() ==> !self.spec_missing(
                store,
                view_parents(stored_header(store, header_id))[j],
            )
    }
}

} // verus!
