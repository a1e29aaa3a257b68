//! Round-trip and digest-stability tests for the message codec.

use primary::messages::{Header, HeaderType, NoVoteCert, TimeoutCert, Vote};
use primary::types::{Digest, PublicKey};

fn pk(i: u64) -> PublicKey {
    PublicKey { k0: i, k1: i + 1, k2: 7, k3: 9 }
}

fn dg(i: u64) -> Digest {
    Digest { w0: i, w1: 2 * i, w2: 3, w3: 4 }
}

fn sample_header() -> Header {
    let mut tc = TimeoutCert::new(3);
    tc.add_timeout(pk(10), vec![1u8, 2, 3]).unwrap();
    tc.add_timeout(pk(11), vec![4u8, 5]).unwrap();
    let mut nvc = NoVoteCert::new(3);
    nvc.add_no_vote(pk(12), vec![6u8]).unwrap();
    Header::new(
        pk(1),
        4,
        vec![(dg(9), 2u32), (dg(5), 1u32)],
        vec![dg(20), dg(7), dg(15)],
        tc,
        nvc,
    )
}

#[test]
fn header_round_trip_preserves_digest() {
    let h = sample_header();
    let d1 = h.digest();
    let bytes = primary::codec::encode_header_type(&HeaderType::Header(h));
    let decoded = primary::codec::decode_header_type(&bytes).expect("decodes");
    match decoded {
        HeaderType::Header(h2) => {
            assert_eq!(h2.digest(), d1);
            assert_eq!(h2.id, d1);
            assert_eq!(h2.round, 4);
            assert_eq!(h2.author, pk(1));
            assert_eq!(h2.payload.len(), 2);
            assert_eq!(h2.parents.len(), 3);
            assert_eq!(h2.timeout_cert.timeouts.len(), 2);
            assert_eq!(h2.no_vote_cert.no_votes.len(), 1);
        }
        _ => panic!("wrong variant"),
    }
}

#[test]
fn header_info_round_trip() {
    let hi = primary::messages::HeaderInfo {
        author: pk(2),
        round: 9,
        parents: vec![dg(1), dg(2)],
        id: dg(77),
    };
    let bytes = primary::codec::encode_header_type(&HeaderType::HeaderInfo(hi));
    match primary::codec::decode_header_type(&bytes).expect("decodes") {
        HeaderType::HeaderInfo(h2) => {
            assert_eq!(h2.author, pk(2));
            assert_eq!(h2.round, 9);
            assert_eq!(h2.parents, vec![dg(1), dg(2)]);
            assert_eq!(h2.id, dg(77));
        }
        _ => panic!("wrong variant"),
    }
}

#[test]
fn vote_round_trip_preserves_digest() {
    let v = Vote { id: dg(3), round: 5, origin: pk(1), author: pk(2), signature: vec![9u8; 96] };
    let d1 = v.digest();
    let bytes = primary::codec::encode_vote(&v);
    let v2 = primary::codec::decode_vote(&bytes).expect("decodes");
    assert_eq!(v2.digest(), d1);
    assert_eq!(v2.id, dg(3));
    assert_eq!(v2.round, 5);
    assert_eq!(v2.origin, pk(1));
    assert_eq!(v2.author, pk(2));
    assert_eq!(v2.signature, vec![9u8; 96]);
}

#[test]
fn certificate_round_trip_preserves_digest() {
    let c = primary::messages::Certificate {
        header_id: dg(8),
        round: 2,
        origin: pk(3),
        bitmap: vec![u128::MAX - 7],
        agg_signature: vec![5u8; 96],
    };
    let d1 = c.digest();
    let bytes = primary::codec::encode_certificate(&c);
    let c2 = primary::codec::decode_certificate(&bytes).expect("decodes");
    assert_eq!(c2.digest(), d1);
    assert_eq!(c2.header_id, dg(8));
    assert_eq!(c2.round, 2);
    assert_eq!(c2.origin, pk(3));
    assert_eq!(c2.bitmap, vec![u128::MAX - 7]);
    assert_eq!(c2.agg_signature, vec![5u8; 96]);
}

#[test]
fn truncated_buffer_is_rejected() {
    let h = sample_header();
    let mut bytes = primary::codec::encode_header_type(&HeaderType::Header(h));
    bytes.pop();
    assert!(primary::codec::decode_header_type(&bytes).is_none());
}

#[test]
fn trailing_bytes_are_rejected() {
    let h = sample_header();
    let mut bytes = primary::codec::encode_header_type(&HeaderType::Header(h));
    bytes.push(0u8);
    assert!(primary::codec::decode_header_type(&bytes).is_none());
}

#[test]
fn header_new_sorts_payload_and_parents() {
    let h = sample_header();
    assert_eq!(h.parents, vec![dg(7), dg(15), dg(20)]);
    assert_eq!(h.payload, vec![(dg(5), 1u32), (dg(9), 2u32)]);
}

#[test]
fn digest_words_round_trip_bytes() {
    let d = dg(123456789);
    let b = d.to_bytes();
    assert_eq!(b.len(), 32);
    let d2 = Digest::from_bytes(&b);
    assert_eq!(d, d2);
}

#[test]
fn equal_contents_share_a_digest() {
    let h1 = sample_header();
    let h2 = sample_header();
    assert_eq!(h1.digest(), h2.digest());
    assert_eq!(h1.id, h2.id);
}

#[test]
fn certificate_equality_is_by_identity() {
    let a = primary::messages::Certificate {
        header_id: dg(1),
        round: 2,
        origin: pk(3),
        bitmap: vec![u128::MAX],
        agg_signature: vec![1u8; 96],
    };
    let b = primary::messages::Certificate {
        header_id: dg(1),
        round: 2,
        origin: pk(3),
        bitmap: vec![0u128],
        agg_signature: vec![2u8; 96],
    };
    let c = primary::messages::Certificate {
        header_id: dg(1),
        round: 3,
        origin: pk(3),
        bitmap: vec![u128::MAX],
        agg_signature: vec![1u8; 96],
    };
    assert!(a == b, "identity ignores the vote material");
    assert!(a != c, "a different round is a different certificate");
}

#[test]
fn store_overwrites_and_reads_back() {
    let mut store = primary::store::Store::new();
    store.write(dg(1), vec![1, 2, 3]);
    store.write(dg(2), vec![4]);
    store.write(dg(1), vec![9, 9]);
    assert_eq!(store.read(&dg(1)), Some(&vec![9u8, 9]));
    assert_eq!(store.read(&dg(2)), Some(&vec![4u8]));
    assert!(store.read(&dg(3)).is_none());
    assert!(store.contains(&dg(2)));
}
