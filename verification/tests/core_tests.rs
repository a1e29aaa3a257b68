//! End-to-end tests of the core state machine: voting discipline, the
//! certificate pipeline with real BLS keys, the certificate waiter, and
//! the timeout path.

use ed25519_dalek::Signer;
use primary::aggregators::VotesAggregator;
use primary::committee::{Authority, Clan, Committee};
use primary::error::DagError;
use primary::messages::{Header, HeaderType, NoVoteCert, TimeoutCert, Vote};
use primary::primary_core::{CertificateOutcome, Core, HeaderOutcome};
use primary::store::Store;
use primary::synchronizer::Synchronizer;
use primary::types::{Digest, PublicKey};
use primary::waiter::CertificateWaiter;

fn pk(i: u64) -> PublicKey {
    PublicKey { k0: i, k1: 0, k2: 0, k3: 0 }
}

fn dg(i: u64) -> Digest {
    Digest { w0: i, w1: 0, w2: 0, w3: 0 }
}

/// A deterministic BLS secret key for authority `i`.
fn bls_secret(i: u8) -> blsttc::SecretKey {
    blsttc::SecretKey::from_bytes([i + 1; 32]).expect("valid scalar")
}

/// Four equal-stake authorities in one clan with real BLS keys.
fn bls_committee() -> (Committee, Vec<blsttc::SecretKey>) {
    let mut authorities = Vec::new();
    let mut keys = Vec::new();
    let mut secrets = Vec::new();
    for i in 0..4u64 {
        let sk = bls_secret(i as u8);
        keys.push(sk.public_key().to_bytes().to_vec());
        secrets.push(sk);
        authorities.push(Authority { name: pk(i), stake: 1, clan_id: 0 });
    }
    (Committee::new(authorities, keys).expect("valid committee"), secrets)
}

fn empty_header(author: PublicKey, round: u64, parents: Vec<Digest>) -> Header {
    Header::new(author, round, Vec::new(), parents, TimeoutCert::new(0), NoVoteCert::new(0))
}

fn genesis_parent_ids(committee: &Committee) -> Vec<Digest> {
    Header::genesis(committee).iter().map(|h| h.id).collect()
}

#[test]
fn core_votes_once_per_round() {
    let (committee, _) = bls_committee();
    let clan = Clan::from_committee(&committee, 0);
    let mut core = Core::new(pk(0), committee, clan, 50, 1);
    let parents = genesis_parent_ids(&core.committee);
    let h1 = empty_header(pk(1), 1, parents.clone());
    match core.process_header(h1).unwrap() {
        HeaderOutcome::Voted(v) => {
            assert_eq!(v.round, 1);
            assert_eq!(v.origin, pk(1));
            assert_eq!(v.author, pk(0));
        }
        other => panic!("expected a vote, got {:?}", outcome_name(&other)),
    }
    // A second header for the same round is stored without a vote.
    let h2 = empty_header(pk(2), 1, parents);
    match core.process_header(h2).unwrap() {
        HeaderOutcome::Stored => {}
        other => panic!("expected Stored, got {:?}", outcome_name(&other)),
    }
    assert_eq!(core.last_voted_round, 1);
}

fn outcome_name(o: &HeaderOutcome) -> &'static str {
    match o {
        HeaderOutcome::Parked => "Parked",
        HeaderOutcome::Voted(_) => "Voted",
        HeaderOutcome::Stored => "Stored",
    }
}

#[test]
fn core_rejects_malformed_and_unknown_headers() {
    let (committee, _) = bls_committee();
    let clan = Clan::from_committee(&committee, 0);
    let mut core = Core::new(pk(0), committee, clan, 50, 1);
    let parents = genesis_parent_ids(&core.committee);
    // Unknown author.
    let stranger = empty_header(pk(77), 1, parents.clone());
    assert!(matches!(
        core.process_header(stranger),
        Err(DagError::UnknownAuthority(_))
    ));
    // Wrong id.
    let mut bad = empty_header(pk(1), 1, parents);
    bad.id = dg(12345);
    assert!(matches!(core.process_header(bad), Err(DagError::MalformedHeader(_))));
}

#[test]
fn header_with_missing_parents_is_parked_and_replayed() {
    let (committee, _) = bls_committee();
    let clan = Clan::from_committee(&committee, 0);
    let mut core = Core::new(pk(0), committee, clan, 50, 1);
    let parents = genesis_parent_ids(&core.committee);
    // A round-1 header is stored under its id; a round-2 header that
    // references a missing sibling is parked.
    let h1 = empty_header(pk(1), 1, parents.clone());
    let h1_id = h1.id;
    core.process_header(h1).unwrap();
    let missing = empty_header(pk(2), 1, parents);
    let missing_id = missing.id;
    let h2 = empty_header(pk(2), 2, vec![h1_id, missing_id]);
    match core.process_header(h2).unwrap() {
        HeaderOutcome::Parked => {}
        other => panic!("expected Parked, got {:?}", outcome_name(&other)),
    }
    assert!(core.drain_header_waiter().is_empty());
    // Once the missing header arrives, the parked one drains.
    core.process_header(missing).unwrap();
    let replay = core.drain_header_waiter();
    assert_eq!(replay.len(), 1);
}

/// Builds a certificate for `header` by feeding real signed votes from
/// `signers` into a votes aggregator.
fn make_certificate(
    committee: &Committee,
    clan: &Clan,
    secrets: &[blsttc::SecretKey],
    header: &Header,
    signers: &[u64],
) -> primary::messages::Certificate {
    let mut agg = VotesAggregator::new(committee, clan);
    let id_bytes = header.id.to_bytes();
    let mut out = None;
    for &i in signers {
        let share = secrets[i as usize].sign(&id_bytes).to_bytes().to_vec();
        let vote = Vote { id: header.id, round: header.round, origin: header.author, author: pk(i), signature: share };
        out = agg.append(vote, committee, clan).unwrap();
    }
    out.expect("threshold reached")
}

#[test]
fn certificate_pipeline_and_round_advancement() {
    let (committee, secrets) = bls_committee();
    let clan = Clan::from_committee(&committee, 0);
    let (committee2, _) = bls_committee();
    let clan2 = Clan::from_committee(&committee2, 0);
    let mut core = Core::new(pk(0), committee2, clan2, 50, 1);
    let parents = genesis_parent_ids(&core.committee);
    // Store one round-1 header per authority and certify each.
    let mut certs = Vec::new();
    for origin in 0..4u64 {
        let h = empty_header(pk(origin), 1, parents.clone());
        let cert = make_certificate(&committee, &clan, &secrets, &h, &[0, 1, 2]);
        core.process_header(h).unwrap();
        certs.push(cert);
    }
    // Certificates from three authorities (including the round's leader,
    // position 1) complete the round: stake 3 >= Q and the leader is in.
    let mut advanced = false;
    for cert in certs.into_iter().take(3) {
        match core.process_certificate(cert).unwrap() {
            CertificateOutcome::Accepted => {}
            CertificateOutcome::RoundAdvanced(batch) => {
                advanced = true;
                assert_eq!(batch.len(), 3);
                assert_eq!(core.current_round, 2);
            }
            CertificateOutcome::Parked => panic!("ancestors are all stored"),
        }
    }
    assert!(advanced, "the round must advance at the quorum");
}

#[test]
fn invalid_certificates_are_rejected() {
    let (committee, secrets) = bls_committee();
    let clan = Clan::from_committee(&committee, 0);
    let (committee2, _) = bls_committee();
    let clan2 = Clan::from_committee(&committee2, 0);
    let mut core = Core::new(pk(0), committee2, clan2, 50, 1);
    let parents = genesis_parent_ids(&core.committee);
    let h = empty_header(pk(1), 1, parents);
    let good = make_certificate(&committee, &clan, &secrets, &h, &[0, 1, 2]);
    core.process_header(h).unwrap();
    // Tampered signature: the aggregate no longer verifies.
    let mut bad_sig = primary::waiter::duplicate_certificate(&good);
    bad_sig.agg_signature = vec![1u8; 96];
    assert!(matches!(
        core.process_certificate(bad_sig),
        Err(DagError::InvalidSignature)
    ));
    // Tampered bitmap: stake below the quorum threshold.
    let mut thin = primary::waiter::duplicate_certificate(&good);
    thin.bitmap = vec![u128::MAX - 1];
    assert!(matches!(
        core.process_certificate(thin),
        Err(DagError::InvalidSignature)
    ));
    // The untampered certificate is accepted.
    assert!(core.process_certificate(good).is_ok());
}

#[test]
fn certificate_waiter_parks_and_releases() {
    let (committee, secrets) = bls_committee();
    let clan = Clan::from_committee(&committee, 0);
    let synchronizer = Synchronizer::new(pk(0), &committee);
    // First run: header H with genesis parents is stored; its certificate
    // is deliverable at once.
    let mut store = Store::new();
    let parents = genesis_parent_ids(&committee);
    let h = empty_header(pk(1), 1, vec![parents[0], parents[1]]);
    let cert = make_certificate(&committee, &clan, &secrets, &h, &[0, 1, 2]);
    let bytes = primary::codec::encode_header_type(&HeaderType::Header(h));
    let h_id = cert.header_id;
    store.write(h_id, bytes);
    assert!(synchronizer.deliver_certificate(&store, &cert));
    // Second run: one parent is an ordinary missing digest; the waiter
    // must park the certificate and release it when the parent arrives.
    // Genesis headers are persisted at startup, so the waiter can see
    // them like any other dependency.
    let mut store2 = Store::new();
    for g in Header::genesis(&committee) {
        let gid = g.id;
        let gb = primary::codec::encode_header_type(&HeaderType::Header(g));
        store2.write(gid, gb);
    }
    let foreign = empty_header(pk(2), 1, vec![parents[0], parents[1]]);
    let foreign_id = foreign.id;
    let h2 = empty_header(pk(1), 1, vec![parents[0], foreign_id]);
    let cert2 = make_certificate(&committee, &clan, &secrets, &h2, &[0, 1, 2]);
    let bytes2 = primary::codec::encode_header_type(&HeaderType::Header(h2));
    store2.write(cert2.header_id, bytes2);
    assert!(!synchronizer.deliver_certificate(&store2, &cert2));
    let mut waiter = CertificateWaiter::new();
    waiter.park(&store2, cert2);
    assert!(waiter.drain_ready(&store2).is_empty());
    // Writing the missing parent releases the certificate.
    let fbytes = primary::codec::encode_header_type(&HeaderType::Header(foreign));
    store2.write(foreign_id, fbytes);
    let released = waiter.drain_ready(&store2);
    assert_eq!(released.len(), 1);
    assert!(waiter.pending.is_empty());
}

#[test]
fn timeout_certificate_unblocks_the_round() {
    // The identity key of each authority is its Ed25519 verifying key;
    // timeout signatures are made with the matching signing keys.
    let mut signing = Vec::new();
    let mut authorities = Vec::new();
    let mut bls = Vec::new();
    for i in 0..4u8 {
        let sk = ed25519_dalek::SigningKey::from_bytes(&[i + 1; 32]);
        let vk = sk.verifying_key();
        let name = PublicKey::from_bytes(&vk.to_bytes());
        authorities.push(Authority { name, stake: 1, clan_id: 0 });
        bls.push(vec![i; 48]);
        signing.push(sk);
    }
    let committee2 = Committee::new(authorities.clone(), bls).expect("valid committee");
    let clan2 = Clan::from_committee(&committee2, 0);
    let mut core = Core::new(authorities[0].name, committee2, clan2, 50, 1);
    let parents = genesis_parent_ids(&core.committee);
    // The leader of round 1 (canonical position 1) is silent: only the
    // other three authorities produce round-1 headers.
    let mut parent_ids = Vec::new();
    for i in [0usize, 2, 3] {
        let h = empty_header(authorities[i].name, 1, parents.clone());
        parent_ids.push(h.id);
        core.process_header(h).unwrap();
    }
    // The other primaries emit Timeout(1); a quorum forms a TimeoutCert.
    let mut tcert = TimeoutCert::new(1);
    for i in [0usize, 2, 3] {
        let msg = primary::messages::Timeout::commit_bytes(1, authorities[i].name);
        let sig = signing[i].sign(&msg).to_bytes().to_vec();
        tcert.add_timeout(authorities[i].name, sig).unwrap();
    }
    // The round-2 header misses the round-1 leader among its parents, so
    // it must carry the timeout certificate; the core then accepts it.
    let mut proposer = primary::proposer::Proposer::new(authorities[2].name);
    proposer.make_header(1, Vec::new(), Vec::new(), TimeoutCert::new(0), NoVoteCert::new(0));
    let h2 = Header::new(
        authorities[2].name,
        2,
        Vec::new(),
        parent_ids.clone(),
        tcert,
        NoVoteCert::new(0),
    );
    match core.process_header(h2).unwrap() {
        HeaderOutcome::Voted(v) => assert_eq!(v.round, 2),
        other => panic!("expected a vote, got {:?}", outcome_name(&other)),
    }
    // Without the timeout certificate the same header is rejected.
    let h3 = Header::new(
        authorities[3].name,
        2,
        Vec::new(),
        parent_ids,
        TimeoutCert::new(0),
        NoVoteCert::new(0),
    );
    assert!(matches!(core.process_header(h3), Err(DagError::InvalidSignature)));
}

#[test]
fn proposer_emits_one_header_per_round() {
    let mut proposer = primary::proposer::Proposer::new(pk(0));
    let h = proposer.make_header(1, Vec::new(), Vec::new(), TimeoutCert::new(0), NoVoteCert::new(0));
    assert!(h.is_some());
    let again = proposer.make_header(1, Vec::new(), Vec::new(), TimeoutCert::new(0), NoVoteCert::new(0));
    assert!(again.is_none(), "one header per round at most");
    let next = proposer.make_header(2, Vec::new(), Vec::new(), TimeoutCert::new(0), NoVoteCert::new(0));
    assert!(next.is_some());
}

#[test]
fn stale_rounds_are_rejected() {
    let (committee, _) = bls_committee();
    let clan = Clan::from_committee(&committee, 0);
    let mut core = Core::new(pk(0), committee, clan, 50, 1);
    core.gc_round = 10;
    let h = empty_header(pk(1), 3, Vec::new());
    assert!(matches!(core.process_header(h), Err(DagError::StaleRound(3))));
    let t = primary::messages::Timeout::new(2, pk(1), Vec::new());
    assert!(matches!(core.process_timeout(t), Err(DagError::StaleRound(2))));
}
