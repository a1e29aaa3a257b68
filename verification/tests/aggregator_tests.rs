//! Scenario tests for the four aggregators: vote quorums at the exact
//! threshold, duplicate votes, the clan validity gate, timeout and
//! no-vote quorums, and round completion with designated leaders.

use primary::aggregators::{
    CertificatesAggregator, NoVoteAggregator, TimeoutAggregator, VotesAggregator,
};
use primary::committee::{Authority, Clan, Committee};
use primary::error::DagError;
use primary::messages::{Certificate, NoVoteMsg, Timeout, Vote};
use primary::types::{Digest, PublicKey};

fn pk(i: u64) -> PublicKey {
    PublicKey { k0: i, k1: 0, k2: 0, k3: 0 }
}

fn dg(i: u64) -> Digest {
    Digest { w0: i, w1: 0, w2: 0, w3: 0 }
}

/// A committee from `(stake, clan_id)` pairs with placeholder BLS keys.
fn committee_of(stakes: &[(u64, u64)]) -> Committee {
    let mut authorities = Vec::new();
    let mut keys = Vec::new();
    for (i, (stake, clan_id)) in stakes.iter().enumerate() {
        authorities.push(Authority { name: pk(i as u64), stake: *stake, clan_id: *clan_id });
        keys.push(vec![i as u8; 48]);
    }
    Committee::new(authorities, keys).expect("valid committee")
}

fn vote_from(i: u64, origin: u64) -> Vote {
    Vote {
        id: dg(99),
        round: 1,
        origin: pk(origin),
        author: pk(i),
        signature: vec![i as u8; 96],
    }
}

#[test]
fn vote_quorum_at_exact_threshold() {
    // Four equal-stake authorities in one clan: T=4, Q=3, V_clan=2.
    let committee = committee_of(&[(1, 0), (1, 0), (1, 0), (1, 0)]);
    assert_eq!(committee.quorum_threshold(), 3);
    let clan = Clan::from_committee(&committee, 0);
    assert_eq!(clan.validity_threshold(), 2);
    let mut agg = VotesAggregator::new(&committee, &clan);
    assert!(matches!(agg.append(vote_from(0, 0), &committee, &clan), Ok(None)));
    assert!(matches!(agg.append(vote_from(1, 0), &committee, &clan), Ok(None)));
    let out = agg.append(vote_from(2, 0), &committee, &clan).unwrap();
    let cert = out.expect("certificate at the third distinct vote");
    assert_eq!(cert.header_id, dg(99));
    assert_eq!(cert.round(), 1);
    assert_eq!(cert.origin(), pk(0));
    // Exactly the three contributor bits are cleared.
    assert_eq!(cert.bitmap.len(), 1);
    let word = cert.bitmap[0];
    for bit in 0..3u32 {
        assert_eq!((word >> bit) & 1, 0, "contributor bit {} cleared", bit);
    }
    assert_eq!((word >> 3) & 1, 1, "non-contributor bit stays set");
    for bit in 4..128u32 {
        assert_eq!((word >> bit) & 1, 1);
    }
    // The aggregator latches: a fourth vote is absorbed silently.
    assert!(matches!(agg.append(vote_from(3, 0), &committee, &clan), Ok(None)));
}

#[test]
fn duplicate_vote_is_rejected() {
    let committee = committee_of(&[(1, 0), (1, 0), (1, 0), (1, 0)]);
    let clan = Clan::from_committee(&committee, 0);
    let mut agg = VotesAggregator::new(&committee, &clan);
    assert!(matches!(agg.append(vote_from(0, 0), &committee, &clan), Ok(None)));
    match agg.append(vote_from(0, 0), &committee, &clan) {
        Err(DagError::AuthorityReuse(a)) => assert_eq!(a, pk(0)),
        other => panic!("expected AuthorityReuse, got {:?}", other),
    }
}

#[test]
fn clan_validity_gates_the_quorum() {
    // Clan X = {0,1,2} with stakes 2,1,1 (T_clan=4, V_clan=2);
    // clan Y = {3,4,5} with stakes 4,4,4. T=16, Q=11.
    let committee = committee_of(&[(2, 0), (1, 0), (1, 0), (4, 1), (4, 1), (4, 1)]);
    assert_eq!(committee.quorum_threshold(), 11);
    let clan_x = Clan::from_committee(&committee, 0);
    assert_eq!(clan_x.validity_threshold(), 2);
    let mut agg = VotesAggregator::new(&committee, &clan_x);
    // Votes from the whole of clan Y meet Q but not the clan gate.
    assert!(matches!(agg.append(vote_from(3, 0), &committee, &clan_x), Ok(None)));
    assert!(matches!(agg.append(vote_from(4, 0), &committee, &clan_x), Ok(None)));
    let out = agg.append(vote_from(5, 0), &committee, &clan_x).unwrap();
    assert!(out.is_none(), "committee quorum alone must not emit");
    // One clan-X vote of stake 2 meets the clan threshold and emits.
    let out = agg.append(vote_from(0, 0), &committee, &clan_x).unwrap();
    assert!(out.is_some(), "both thresholds met");
}

#[test]
fn unknown_author_is_rejected() {
    let committee = committee_of(&[(1, 0), (1, 0), (1, 0), (1, 0)]);
    let clan = Clan::from_committee(&committee, 0);
    let mut agg = VotesAggregator::new(&committee, &clan);
    match agg.append(vote_from(9, 0), &committee, &clan) {
        Err(DagError::UnknownAuthority(a)) => assert_eq!(a, pk(9)),
        other => panic!("expected UnknownAuthority, got {:?}", other),
    }
}

fn cert_from(origin: u64, round: u64) -> Certificate {
    Certificate {
        header_id: dg(1000 + origin),
        round,
        origin: pk(origin),
        bitmap: vec![u128::MAX],
        agg_signature: Vec::new(),
    }
}

#[test]
fn batch_waits_for_every_leader() {
    // Four equal-stake authorities; two leaders per round. The leaders of
    // round 1 are the authorities at canonical positions 2 and 3.
    let committee = committee_of(&[(1, 0), (1, 0), (1, 0), (1, 0)]);
    let mut agg = CertificatesAggregator::new();
    assert!(matches!(agg.append(cert_from(0, 1), &committee, 2), Ok(None)));
    assert!(matches!(agg.append(cert_from(1, 1), &committee, 2), Ok(None)));
    // Stake already meets Q, but one leader is still missing.
    assert!(matches!(agg.append(cert_from(2, 1), &committee, 2), Ok(None)));
    let out = agg.append(cert_from(3, 1), &committee, 2).unwrap();
    let batch = out.expect("batch once both leaders contributed");
    assert_eq!(batch.len(), 4);
    // Insertion order is kept.
    for (i, c) in batch.iter().enumerate() {
        assert_eq!(c.origin(), pk(i as u64));
    }
}

#[test]
fn certificates_aggregator_ignores_duplicates() {
    let committee = committee_of(&[(1, 0), (1, 0), (1, 0), (1, 0)]);
    let mut agg = CertificatesAggregator::new();
    assert!(matches!(agg.append(cert_from(0, 1), &committee, 1), Ok(None)));
    assert!(matches!(agg.append(cert_from(0, 1), &committee, 1), Ok(None)));
    assert_eq!(agg.certificates.len(), 1, "duplicate origin is dropped silently");
}

#[test]
fn timeout_aggregator_quorum() {
    let committee = committee_of(&[(1, 0), (1, 0), (1, 0), (1, 0)]);
    let mut agg = TimeoutAggregator::new();
    let t = |i: u64| Timeout::new(1, pk(i), vec![i as u8; 64]);
    assert!(matches!(agg.append(t(0), &committee), Ok(None)));
    assert!(matches!(agg.append(t(1), &committee), Ok(None)));
    let cert = agg.append(t(2), &committee).unwrap().expect("timeout cert at quorum");
    assert_eq!(cert.round, 1);
    assert_eq!(cert.timeouts.len(), 3);
    match agg.append(t(0), &committee) {
        Err(DagError::AuthorityReuse(a)) => assert_eq!(a, pk(0)),
        other => panic!("expected AuthorityReuse, got {:?}", other),
    }
}

#[test]
fn no_vote_aggregator_quorum() {
    let committee = committee_of(&[(1, 0), (1, 0), (1, 0), (1, 0)]);
    let mut agg = NoVoteAggregator::new();
    let m = |i: u64| NoVoteMsg::new(2, pk(i), vec![i as u8; 64]);
    assert!(matches!(agg.append(m(0), &committee), Ok(None)));
    assert!(matches!(agg.append(m(1), &committee), Ok(None)));
    let cert = agg.append(m(2), &committee).unwrap().expect("no-vote cert at quorum");
    assert_eq!(cert.round, 2);
    assert_eq!(cert.no_votes.len(), 3);
}

#[test]
fn committee_thresholds_exact_values() {
    let c4 = committee_of(&[(1, 0), (1, 0), (1, 0), (1, 0)]);
    assert_eq!(c4.quorum_threshold(), 3);
    assert_eq!(c4.validity_threshold(), 2);
    let c7 = committee_of(&[(1, 0); 7]);
    assert_eq!(c7.quorum_threshold(), 5);
    assert_eq!(c7.validity_threshold(), 3);
    let c10 = committee_of(&[(3, 0), (3, 0), (2, 0), (2, 0)]);
    // T = 10: Q = 2*10/3 + 1 = 7, V = 10/3 + 1 = 4.
    assert_eq!(c10.quorum_threshold(), 7);
    assert_eq!(c10.validity_threshold(), 4);
}

#[test]
fn genesis_is_deterministic() {
    let committee = committee_of(&[(1, 0), (1, 0), (1, 0), (1, 0)]);
    let g1 = primary::messages::Header::genesis(&committee);
    let g2 = primary::messages::Header::genesis(&committee);
    assert_eq!(g1.len(), 4);
    for (a, b) in g1.iter().zip(g2.iter()) {
        assert_eq!(a.id, b.id);
        assert_eq!(a.author, b.author);
        assert_eq!(a.round, 0);
        assert!(a.payload.is_empty());
        assert!(a.parents.is_empty());
        let bytes_a = primary::codec::encode_header_type(
            &primary::messages::HeaderType::Header(primary::messages::Header {
                author: a.author,
                round: a.round,
                payload: a.payload.clone(),
                parents: a.parents.clone(),
                id: a.id,
                timeout_cert: primary::messages::TimeoutCert::new(0),
                no_vote_cert: primary::messages::NoVoteCert::new(0),
            }),
        );
        let bytes_b = primary::codec::encode_header_type(
            &primary::messages::HeaderType::Header(primary::messages::Header {
                author: b.author,
                round: b.round,
                payload: b.payload.clone(),
                parents: b.parents.clone(),
                id: b.id,
                timeout_cert: primary::messages::TimeoutCert::new(0),
                no_vote_cert: primary::messages::NoVoteCert::new(0),
            }),
        );
        assert_eq!(bytes_a, bytes_b, "genesis is bit-for-bit identical");
    }
    let gc = primary::messages::Certificate::genesis(&committee);
    assert_eq!(gc.len(), 4);
    for (c, h) in gc.iter().zip(g1.iter()) {
        assert_eq!(c.header_id, h.id);
        assert_eq!(c.round, 0);
        assert_eq!(c.origin, h.author);
    }
}

#[test]
fn sort_digests_exact_order() {
    let v = vec![dg(5), dg(1), dg(3), dg(1)];
    let s = primary::sorting::sort_digests(&v);
    assert_eq!(s, vec![dg(1), dg(1), dg(3), dg(5)]);
}
