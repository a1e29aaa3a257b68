//! Canonical byte encoding of the message model, with a proven round
//! trip: decoding an encoding gives back the same value, so digests are
//! stable across serialization.
//!
//! The format is little-endian throughout: integers as fixed-width
//! little-endian bytes, byte strings and lists length-prefixed with a
//! 64-bit count, and the header sum type tagged with one leading byte.

use crate::messages::{
    Certificate, CertificateView, Header, HeaderInfo, HeaderInfoView, HeaderType, HeaderView,
    NoVoteCert, TimeoutCert, TimeoutCertView, Vote, VoteView,
};
use crate::types::{Digest, PublicKey, WorkerId};
use vstd::bytes::*;
use vstd::prelude::*;

verus! {

// ---------------------------------------------------------------------------
// Spec encodings
// ---------------------------------------------------------------------------
/// Encoding of a byte string: a 64-bit length then the raw bytes.
pub open spec fn enc_bytes(v: Seq<u8>) -> Seq<u8> {
    spec_u64_to_le_bytes(v.len() as u64) + v
}

/// Encoding of a list of `(author, signature)` entries.
pub open spec fn enc_entries(s: Seq<(PublicKey, Seq<u8>)>) -> Seq<u8>
    decreases s.len(),
{
    if s.len() == 0 {
        Seq::empty()
    } else {
        enc_entries(s.drop_last()) + s.last().0.spec_bytes() + enc_bytes(s.last().1)
    }
}

/// Encoding of a timeout or no-vote certificate.
pub open spec fn enc_tc(tc: TimeoutCertView) -> Seq<u8> {
    spec_u64_to_le_bytes(tc.round) + spec_u64_to_le_bytes(tc.timeouts.len() as u64) + enc_entries(
        tc.timeouts,
    )
}

/// Encoding of the payload entries.
pub open spec fn enc_payload(s: Seq<(Digest, WorkerId)>) -> Seq<u8>
    decreases s.len(),
{
    if s.len() == 0 {
        Seq::empty()
    } else {
        enc_payload(s.drop_last()) + s.last().0.spec_bytes() + spec_u32_to_le_bytes(s.last().1)
    }
}

/// Encoding of the parent digests.
pub open spec fn enc_parents(s: Seq<Digest>) -> Seq<u8>
    decreases s.len(),
{
    if s.len() == 0 {
        Seq::empty()
    } else {
        enc_parents(s.drop_last()) + s.last().spec_bytes()
    }
}

/// Encoding of a full header.
pub open spec fn enc_header(h: HeaderView) -> Seq<u8> {
    h.author.spec_bytes() + spec_u64_to_le_bytes(h.round) + spec_u64_to_le_bytes(
        h.payload.len() as u64,
    ) + enc_payload(h.payload) + spec_u64_to_le_bytes(h.parents.len() as u64) + enc_parents(
        h.parents,
    ) + h.id.spec_bytes() + enc_tc(h.timeout_cert) + enc_tc(h.no_vote_cert)
}

/// Encoding of a compact header.
pub open spec fn enc_header_info(h: HeaderInfoView) -> Seq<u8> {
    h.author.spec_bytes() + spec_u64_to_le_bytes(h.round) + spec_u64_to_le_bytes(
        h.parents.len() as u64,
    ) + enc_parents(h.parents) + h.id.spec_bytes()
}

/// Encoding of the header sum type: a tag byte then the body.
pub open spec fn enc_header_type(h: HeaderType) -> Seq<u8> {
    match h {
        HeaderType::Header(hh) => seq![0u8] + enc_header(hh@),
        HeaderType::HeaderInfo(hi) => seq![1u8] + enc_header_info(hi@),
    }
}

/// Encoding of a vote.
pub open spec fn enc_vote(v: VoteView) -> Seq<u8> {
    v.id.spec_bytes() + spec_u64_to_le_bytes(v.round) + v.origin.spec_bytes()
        + v.author.spec_bytes() + enc_bytes(v.signature)
}

/// Encoding of the bitmap words.
pub open spec fn enc_words(s: Seq<u128>) -> Seq<u8>
    decreases s.len(),
{
    if s.len() == 0 {
        Seq::empty()
    } else {
        enc_words(s.drop_last()) + spec_u128_to_le_bytes(s.last())
    }
}

/// Encoding of a certificate.
pub open spec fn enc_certificate(c: CertificateView) -> Seq<u8> {
    c.header_id.spec_bytes() + spec_u64_to_le_bytes(c.round) + c.origin.spec_bytes()
        + spec_u64_to_le_bytes(c.bitmap.len() as u64) + enc_words(c.bitmap) + enc_bytes(
        c.agg_signature,
    )
}

// ---------------------------------------------------------------------------
// Spec decoders
// ---------------------------------------------------------------------------
/// Decodes a 64-bit little-endian integer at `i`.
pub open spec fn dec_u64(s: Seq<u8>, i: int) -> Option<(u64, int)> {
    if 0 <= i && i + 8 <= s.len() {
        Some((spec_u64_from_le_bytes(s.subrange(i, i + 8)), i + 8))
    } else {
        None
    }
}

/// Decodes a 32-bit little-endian integer at `i`.
pub open spec fn dec_u32(s: Seq<u8>, i: int) -> Option<(u32, int)> {
    if 0 <= i && i + 4 <= s.len() {
        Some((spec_u32_from_le_bytes(s.subrange(i, i + 4)), i + 4))
    } else {
        None
    }
}

/// Decodes a 128-bit little-endian integer at `i`.
pub open spec fn dec_u128(s: Seq<u8>, i: int) -> Option<(u128, int)> {
    if 0 <= i && i + 16 <= s.len() {
        Some((spec_u128_from_le_bytes(s.subrange(i, i + 16)), i + 16))
    } else {
        None
    }
}

/// Decodes a digest at `i`.
pub open spec fn dec_digest(s: Seq<u8>, i: int) -> Option<(Digest, int)> {
    if 0 <= i && i + 32 <= s.len() {
        Some((Digest::spec_from_bytes(s.subrange(i, i + 32)), i + 32))
    } else {
        None
    }
}

/// Decodes an identity key at `i`.
pub open spec fn dec_pk(s: Seq<u8>, i: int) -> Option<(PublicKey, int)> {
    if 0 <= i && i + 32 <= s.len() {
        Some((PublicKey::spec_from_bytes(s.subrange(i, i + 32)), i + 32))
    } else {
        None
    }
}

/// Decodes a length-prefixed byte string at `i`.
pub open spec fn dec_bytes(s: Seq<u8>, i: int) -> Option<(Seq<u8>, int)> {
    match dec_u64(s, i) {
        None => None,
        Some((n, i2)) => if i2 + n <= s.len() {
            Some((s.subrange(i2, i2 + n), i2 + n as int))
        } else {
            None
        },
    }
}

/// Decodes `n` `(author, signature)` entries at `i`.
pub open spec fn dec_entries(s: Seq<u8>, i: int, n: int) -> Option<(Seq<(PublicKey, Seq<u8>)>, int)>
    decreases n,
{
    if n <= 0 {
        Some((Seq::empty(), i))
    } else {
        match dec_pk(s, i) {
            None => None,
            Some((pk, i2)) => match dec_bytes(s, i2) {
                None => None,
                Some((sig, i3)) => match dec_entries(s, i3, n - 1) {
                    None => None,
                    Some((rest, i4)) => Some((seq![(pk, sig)] + rest, i4)),
                },
            },
        }
    }
}

/// Decodes a count-prefixed entry list at `i`.
pub open spec fn dec_counted_entries(s: Seq<u8>, i: int) -> Option<(Seq<(PublicKey, Seq<u8>)>, int)> {
    match dec_u64(s, i) {
        None => None,
        Some((n, i2)) => if n <= s.len() {
            dec_entries(s, i2, n as int)
        } else {
            None
        },
    }
}

/// Decodes a timeout or no-vote certificate at `i`.
pub open spec fn dec_tc(s: Seq<u8>, i: int) -> Option<(TimeoutCertView, int)> {
    match dec_u64(s, i) {
        None => None,
        Some((round, i2)) => match dec_counted_entries(s, i2) {
            None => None,
            Some((entries, i3)) => Some((TimeoutCertView { round, timeouts: entries }, i3)),
        },
    }
}

/// Decodes `n` payload entries at `i`.
pub open spec fn dec_payload(s: Seq<u8>, i: int, n: int) -> Option<(Seq<(Digest, WorkerId)>, int)>
    decreases n,
{
    if n <= 0 {
        Some((Seq::empty(), i))
    } else {
        match dec_digest(s, i) {
            None => None,
            Some((d, i2)) => match dec_u32(s, i2) {
                None => None,
                Some((w, i3)) => match dec_payload(s, i3, n - 1) {
                    None => None,
                    Some((rest, i4)) => Some((seq![(d, w)] + rest, i4)),
                },
            },
        }
    }
}

/// Decodes `n` parent digests at `i`.
pub open spec fn dec_parents(s: Seq<u8>, i: int, n: int) -> Option<(Seq<Digest>, int)>
    decreases n,
{
    if n <= 0 {
        Some((Seq::empty(), i))
    } else {
        match dec_digest(s, i) {
            None => None,
            Some((d, i2)) => match dec_parents(s, i2, n - 1) {
                None => None,
                Some((rest, i3)) => Some((seq![d] + rest, i3)),
            },
        }
    }
}

/// Decodes `n` bitmap words at `i`.
pub open spec fn dec_words(s: Seq<u8>, i: int, n: int) -> Option<(Seq<u128>, int)>
    decreases n,
{
    if n <= 0 {
        Some((Seq::empty(), i))
    } else {
        match dec_u128(s, i) {
            None => None,
            Some((w, i2)) => match dec_words(s, i2, n - 1) {
                None => None,
                Some((rest, i3)) => Some((seq![w] + rest, i3)),
            },
        }
    }
}

/// Decodes a count-prefixed payload list at `i`.
pub open spec fn dec_counted_payload(s: Seq<u8>, i: int) -> Option<(Seq<(Digest, WorkerId)>, int)> {
    match dec_u64(s, i) {
        None => None,
        Some((n, i2)) => if n <= s.len() {
            dec_payload(s, i2, n as int)
        } else {
            None
        },
    }
}

/// Decodes a count-prefixed parent list at `i`.
pub open spec fn dec_counted_parents(s: Seq<u8>, i: int) -> Option<(Seq<Digest>, int)> {
    match dec_u64(s, i) {
        None => None,
        Some((n, i2)) => if n <= s.len() {
            dec_parents(s, i2, n as int)
        } else {
            None
        },
    }
}

/// Decodes the front of a header (author, round, payload, parents) at `i`.
pub open spec fn dec_header_front(s: Seq<u8>, i: int) -> Option<
    ((PublicKey, u64, Seq<(Digest, WorkerId)>, Seq<Digest>), int),
> {
    match dec_pk(s, i) {
        None => None,
        Some((author, i2)) => match dec_u64(s, i2) {
            None => None,
            Some((round, i3)) => match dec_counted_payload(s, i3) {
                None => None,
                Some((payload, i4)) => match dec_counted_parents(s, i4) {
                    None => None,
                    Some((parents, i5)) => Some(((author, round, payload, parents), i5)),
                },
            },
        },
    }
}

/// Decodes a full header at `i`.
pub open spec fn dec_header(s: Seq<u8>, i: int) -> Option<(HeaderView, int)> {
    match dec_header_front(s, i) {
        None => None,
        Some((front, i5)) => match dec_digest(s, i5) {
            None => None,
            Some((id, i6)) => match dec_tc(s, i6) {
                None => None,
                Some((tc, i7)) => match dec_tc(s, i7) {
                    None => None,
                    Some((nvc, i8)) => Some(
                        (
                            HeaderView {
                                author: front.0,
                                round: front.1,
                                payload: front.2,
                                parents: front.3,
                                id,
                                timeout_cert: tc,
                                no_vote_cert: nvc,
                            },
                            i8,
                        ),
                    ),
                },
            },
        },
    }
}

/// Decodes a compact header at `i`.
pub open spec fn dec_header_info(s: Seq<u8>, i: int) -> Option<(HeaderInfoView, int)> {
    match dec_pk(s, i) {
        None => None,
        Some((author, i2)) => match dec_u64(s, i2) {
            None => None,
            Some((round, i3)) => match dec_counted_parents(s, i3) {
                None => None,
                Some((parents, i4)) => match dec_digest(s, i4) {
                    None => None,
                    Some((id, i5)) => Some((HeaderInfoView { author, round, parents, id }, i5)),
                },
            },
        },
    }
}

/// Mathematical view of a decoded header sum value.
pub enum HeaderTypeView {
    Header(HeaderView),
    HeaderInfo(HeaderInfoView),
}

/// The view of a `HeaderType`.
pub open spec fn header_type_view(h: HeaderType) -> HeaderTypeView {
    match h {
        HeaderType::Header(hh) => HeaderTypeView::Header(hh@),
        HeaderType::HeaderInfo(hi) => HeaderTypeView::HeaderInfo(hi@),
    }
}

/// Decodes a header sum value at `i`.
pub open spec fn dec_header_type(s: Seq<u8>, i: int) -> Option<(HeaderTypeView, int)> {
    if 0 <= i && i + 1 <= s.len() {
        if s[i] == 0u8 {
            match dec_header(s, i + 1) {
                None => None,
                Some((h, j)) => Some((HeaderTypeView::Header(h), j)),
            }
        } else if s[i] == 1u8 {
            match dec_header_info(s, i + 1) {
                None => None,
                Some((h, j)) => Some((HeaderTypeView::HeaderInfo(h), j)),
            }
        } else {
            None
        }
    } else {
        None
    }
}

/// Decodes a vote at `i`.
pub open spec fn dec_vote(s: Seq<u8>, i: int) -> Option<(VoteView, int)> {
    match dec_digest(s, i) {
        None => None,
        Some((id, i2)) => match dec_u64(s, i2) {
            None => None,
            Some((round, i3)) => match dec_pk(s, i3) {
                None => None,
                Some((origin, i4)) => match dec_pk(s, i4) {
                    None => None,
                    Some((author, i5)) => match dec_bytes(s, i5) {
                        None => None,
                        Some((sig, i6)) => Some(
                            (VoteView { id, round, origin, author, signature: sig }, i6),
                        ),
                    },
                },
            },
        },
    }
}

/// Decodes a count-prefixed word list at `i`.
pub open spec fn dec_counted_words(s: Seq<u8>, i: int) -> Option<(Seq<u128>, int)> {
    match dec_u64(s, i) {
        None => None,
        Some((n, i2)) => if n <= s.len() {
            dec_words(s, i2, n as int)
        } else {
            None
        },
    }
}

/// Decodes a certificate at `i`.
pub open spec fn dec_certificate(s: Seq<u8>, i: int) -> Option<(CertificateView, int)> {
    match dec_digest(s, i) {
        None => None,
        Some((hid, i2)) => match dec_u64(s, i2) {
            None => None,
            Some((round, i3)) => match dec_pk(s, i3) {
                None => None,
                Some((origin, i4)) => match dec_counted_words(s, i4) {
                    None => None,
                    Some((bitmap, i5)) => match dec_bytes(s, i5) {
                        None => None,
                        Some((sig, i6)) => Some(
                            (
                                CertificateView {
                                    header_id: hid,
                                    round,
                                    origin,
                                    bitmap,
                                    agg_signature: sig,
                                },
                                i6,
                            ),
                        ),
                    },
                },
            },
        },
    }
}

// ---------------------------------------------------------------------------
// Round-trip lemmas: decoding an encoding gives back the value
// ---------------------------------------------------------------------------
/// Decoding a 64-bit integer out of its encoding in context.
pub proof fn lemma_dec_u64(p: Seq<u8>, x: u64, r: Seq<u8>)
    ensures
        dec_u64(p + spec_u64_to_le_bytes(x) + r, p.len() as int) == Some(
            (x, p.len() as int + 8),
        ),
        spec_u64_to_le_bytes(x).len() == 8,
{
    lemma_auto_spec_u64_to_from_le_bytes();
    let s = p + spec_u64_to_le_bytes(x) + r;
    assert(s.subrange(p.len() as int, p.len() as int + 8) =~= spec_u64_to_le_bytes(x));
}

/// Decoding a 32-bit integer out of its encoding in context.
pub proof fn lemma_dec_u32(p: Seq<u8>, x: u32, r: Seq<u8>)
    ensures
        dec_u32(p + spec_u32_to_le_bytes(x) + r, p.len() as int) == Some(
            (x, p.len() as int + 4),
        ),
        spec_u32_to_le_bytes(x).len() == 4,
{
    lemma_auto_spec_u32_to_from_le_bytes();
    let s = p + spec_u32_to_le_bytes(x) + r;
    assert(s.subrange(p.len() as int, p.len() as int + 4) =~= spec_u32_to_le_bytes(x));
}

/// Decoding a 128-bit integer out of its encoding in context.
pub proof fn lemma_dec_u128(p: Seq<u8>, x: u128, r: Seq<u8>)
    ensures
        dec_u128(p + spec_u128_to_le_bytes(x) + r, p.len() as int) == Some(
            (x, p.len() as int + 16),
        ),
        spec_u128_to_le_bytes(x).len() == 16,
{
    lemma_auto_spec_u128_to_from_le_bytes();
    let s = p + spec_u128_to_le_bytes(x) + r;
    assert(s.subrange(p.len() as int, p.len() as int + 16) =~= spec_u128_to_le_bytes(x));
}

/// Decoding a digest out of its canonical bytes in context.
pub proof fn lemma_dec_digest(p: Seq<u8>, d: Digest, r: Seq<u8>)
    ensures
        dec_digest(p + d.spec_bytes() + r, p.len() as int) == Some((d, p.len() as int + 32)),
        d.spec_bytes().len() == 32,
{
    crate::types::lemma_digest_bytes_round_trip(d);
    let s = p + d.spec_bytes() + r;
    assert(s.subrange(p.len() as int, p.len() as int + 32) =~= d.spec_bytes());
}

/// Decoding an identity key out of its canonical bytes in context.
pub proof fn lemma_dec_pk(p: Seq<u8>, k: PublicKey, r: Seq<u8>)
    ensures
        dec_pk(p + k.spec_bytes() + r, p.len() as int) == Some((k, p.len() as int + 32)),
        k.spec_bytes().len() == 32,
{
    crate::types::lemma_public_key_bytes_round_trip(k);
    let s = p + k.spec_bytes() + r;
    assert(s.subrange(p.len() as int, p.len() as int + 32) =~= k.spec_bytes());
}

/// Decoding a length-prefixed byte string out of its encoding in context.
pub proof fn lemma_dec_bytes(p: Seq<u8>, v: Seq<u8>, r: Seq<u8>)
    requires
        v.len() <= u64::MAX,
    ensures
        dec_bytes(p + enc_bytes(v) + r, p.len() as int) == Some(
            (v, p.len() as int + enc_bytes(v).len()),
        ),
        enc_bytes(v).len() == 8 + v.len(),
{
    lemma_auto_spec_u64_to_from_le_bytes();
    let s = p + enc_bytes(v) + r;
    assert(s =~= p + spec_u64_to_le_bytes(v.len() as u64) + (v + r));
    lemma_dec_u64(p, v.len() as u64, v + r);
    assert(s.subrange(p.len() as int + 8, p.len() as int + 8 + v.len() as int) =~= v);
}

/// Each encoded entry takes at least one byte per entry.
pub proof fn lemma_enc_entries_len(s: Seq<(PublicKey, Seq<u8>)>)
    ensures
        enc_entries(s).len() >= s.len(),
    decreases s.len(),
{
    if s.len() > 0 {
        lemma_enc_entries_cons(s);
        lemma_enc_entries_len(s.skip(1));
        lemma_auto_spec_u64_to_from_le_bytes();
        crate::types::lemma_public_key_bytes_round_trip(s[0].0);
    }
}

/// Each encoded payload entry takes at least one byte per entry.
pub proof fn lemma_enc_payload_len(s: Seq<(Digest, WorkerId)>)
    ensures
        enc_payload(s).len() >= s.len(),
    decreases s.len(),
{
    if s.len() > 0 {
        lemma_enc_payload_cons(s);
        lemma_enc_payload_len(s.skip(1));
        vstd::bytes::lemma_auto_spec_u32_to_from_le_bytes();
        crate::types::lemma_digest_bytes_round_trip(s[0].0);
    }
}

/// Each encoded parent digest takes at least one byte per entry.
pub proof fn lemma_enc_parents_len(s: Seq<Digest>)
    ensures
        enc_parents(s).len() >= s.len(),
    decreases s.len(),
{
    if s.len() > 0 {
        lemma_enc_parents_cons(s);
        lemma_enc_parents_len(s.skip(1));
        crate::types::lemma_digest_bytes_round_trip(s[0]);
    }
}

/// Each encoded bitmap word takes at least one byte per entry.
pub proof fn lemma_enc_words_len(s: Seq<u128>)
    ensures
        enc_words(s).len() >= s.len(),
    decreases s.len(),
{
    if s.len() > 0 {
        lemma_enc_words_cons(s);
        lemma_enc_words_len(s.skip(1));
        vstd::bytes::lemma_auto_spec_u128_to_from_le_bytes();
    }
}

/// The entry list encoding unrolls at the head.
pub proof fn lemma_enc_entries_cons(s: Seq<(PublicKey, Seq<u8>)>)
    requires
        s.len() > 0,
    ensures
        enc_entries(s) == s[0].0.spec_bytes() + enc_bytes(s[0].1) + enc_entries(s.skip(1)),
    decreases s.len(),
{
    if s.len() == 1 {
        assert(s.drop_last().len() == 0);
        assert(s.skip(1).len() == 0);
        assert(enc_entries(s.drop_last()) =~= Seq::<u8>::empty());
        assert(enc_entries(s.skip(1)) =~= Seq::<u8>::empty());
        assert(enc_entries(s) =~= s[0].0.spec_bytes() + enc_bytes(s[0].1) + enc_entries(
            s.skip(1),
        ));
    } else {
        lemma_enc_entries_cons(s.drop_last());
        assert(s.drop_last()[0] == s[0]);
        assert(s.skip(1).drop_last() =~= s.drop_last().skip(1));
        assert(s.skip(1).last() == s.last());
        let kb = s[0].0.spec_bytes();
        let sb = s[0].1;
        let t = enc_entries(s.drop_last().skip(1));
        let lk = s.last().0.spec_bytes();
        let ls = enc_bytes(s.last().1);
        assert(enc_entries(s.drop_last()) == kb + enc_bytes(sb) + t);
        assert(enc_entries(s) == (kb + enc_bytes(sb) + t) + lk + ls);
        assert(enc_entries(s.skip(1)) == t + lk + ls);
        assert((kb + enc_bytes(sb) + t) + lk + ls =~= kb + enc_bytes(sb) + (t + lk + ls));
    }
}

/// Every signature in the entries fits the length prefix.
pub open spec fn entries_bounded(s: Seq<(PublicKey, Seq<u8>)>) -> bool {
    forall|i: int| 0 <= i < s.len() ==> s[i].1.len() <= u64::MAX
}

/// Decoding an entry list out of its encoding in context.
pub proof fn lemma_dec_entries(p: Seq<u8>, v: Seq<(PublicKey, Seq<u8>)>, r: Seq<u8>)
    requires
        entries_bounded(v),
    ensures
        dec_entries(p + enc_entries(v) + r, p.len() as int, v.len() as int) == Some(
            (v, p.len() as int + enc_entries(v).len()),
        ),
    decreases v.len(),
{
    let s = p + enc_entries(v) + r;
    if v.len() == 0 {
        assert(enc_entries(v).len() == 0);
    } else {
        lemma_enc_entries_cons(v);
        let kb = v[0].0.spec_bytes();
        let sb = enc_bytes(v[0].1);
        let tail = enc_entries(v.skip(1));
        assert(s =~= p + v[0].0.spec_bytes() + (sb + tail + r));
        lemma_dec_pk(p, v[0].0, sb + tail + r);
        assert(s =~= (p + kb) + enc_bytes(v[0].1) + (tail + r));
        lemma_dec_bytes(p + kb, v[0].1, tail + r);
        assert(s =~= (p + kb + sb) + enc_entries(v.skip(1)) + r);
        assert(entries_bounded(v.skip(1)));
        lemma_dec_entries(p + kb + sb, v.skip(1), r);
        assert(v =~= seq![v[0]] + v.skip(1));
        assert(enc_entries(v).len() == kb.len() + sb.len() + tail.len());
    }
}

/// Decoding a count-prefixed entry list out of its encoding in context.
pub proof fn lemma_dec_counted_entries(p: Seq<u8>, v: Seq<(PublicKey, Seq<u8>)>, r: Seq<u8>)
    requires
        entries_bounded(v),
        v.len() <= u64::MAX,
    ensures
        dec_counted_entries(
            p + (spec_u64_to_le_bytes(v.len() as u64) + enc_entries(v)) + r,
            p.len() as int,
        ) == Some((v, p.len() as int + 8 + enc_entries(v).len())),
{
    lemma_auto_spec_u64_to_from_le_bytes();
    let nb = spec_u64_to_le_bytes(v.len() as u64);
    let s = p + (nb + enc_entries(v)) + r;
    assert(s =~= p + nb + (enc_entries(v) + r));
    lemma_dec_u64(p, v.len() as u64, enc_entries(v) + r);
    lemma_enc_entries_len(v);
    assert(v.len() <= s.len());
    assert(s =~= (p + nb) + enc_entries(v) + r);
    lemma_dec_entries(p + nb, v, r);
}

/// Decoding a timeout certificate out of its encoding in context.
pub proof fn lemma_dec_tc(p: Seq<u8>, v: TimeoutCertView, r: Seq<u8>)
    requires
        entries_bounded(v.timeouts),
        v.timeouts.len() <= u64::MAX,
    ensures
        dec_tc(p + enc_tc(v) + r, p.len() as int) == Some((v, p.len() as int + enc_tc(v).len())),
{
    lemma_auto_spec_u64_to_from_le_bytes();
    let s = p + enc_tc(v) + r;
    let rb = spec_u64_to_le_bytes(v.round);
    let nb = spec_u64_to_le_bytes(v.timeouts.len() as u64);
    let eb = enc_entries(v.timeouts);
    assert(s =~= p + rb + ((nb + eb) + r));
    lemma_dec_u64(p, v.round, (nb + eb) + r);
    assert(s =~= (p + rb) + (nb + eb) + r);
    lemma_dec_counted_entries(p + rb, v.timeouts, r);
}

/// The payload encoding unrolls at the head.
pub proof fn lemma_enc_payload_cons(s: Seq<(Digest, WorkerId)>)
    requires
        s.len() > 0,
    ensures
        enc_payload(s) == s[0].0.spec_bytes() + spec_u32_to_le_bytes(s[0].1) + enc_payload(
            s.skip(1),
        ),
    decreases s.len(),
{
    if s.len() == 1 {
        assert(s.drop_last().len() == 0);
        assert(s.skip(1).len() == 0);
        assert(enc_payload(s.drop_last()) =~= Seq::<u8>::empty());
        assert(enc_payload(s.skip(1)) =~= Seq::<u8>::empty());
        assert(enc_payload(s) =~= s[0].0.spec_bytes() + spec_u32_to_le_bytes(s[0].1)
            + enc_payload(s.skip(1)));
    } else {
        lemma_enc_payload_cons(s.drop_last());
        assert(s.drop_last()[0] == s[0]);
        assert(s.skip(1).drop_last() =~= s.drop_last().skip(1));
        assert(s.skip(1).last() == s.last());
        let kb = s[0].0.spec_bytes();
        let wb = spec_u32_to_le_bytes(s[0].1);
        let t = enc_payload(s.drop_last().skip(1));
        let lk = s.last().0.spec_bytes();
        let lw = spec_u32_to_le_bytes(s.last().1);
        assert(enc_payload(s.drop_last()) == kb + wb + t);
        assert(enc_payload(s) == (kb + wb + t) + lk + lw);
        assert(enc_payload(s.skip(1)) == t + lk + lw);
        assert((kb + wb + t) + lk + lw =~= kb + wb + (t + lk + lw));
    }
}

/// Decoding a payload list out of its encoding in context.
pub proof fn lemma_dec_payload(p: Seq<u8>, v: Seq<(Digest, WorkerId)>, r: Seq<u8>)
    ensures
        dec_payload(p + enc_payload(v) + r, p.len() as int, v.len() as int) == Some(
            (v, p.len() as int + enc_payload(v).len()),
        ),
    decreases v.len(),
{
    let s = p + enc_payload(v) + r;
    if v.len() == 0 {
        assert(enc_payload(v).len() == 0);
    } else {
        lemma_enc_payload_cons(v);
        let db = v[0].0.spec_bytes();
        let wb = spec_u32_to_le_bytes(v[0].1);
        let tail = enc_payload(v.skip(1));
        assert(s =~= p + v[0].0.spec_bytes() + (wb + tail + r));
        lemma_dec_digest(p, v[0].0, wb + tail + r);
        assert(s =~= (p + db) + spec_u32_to_le_bytes(v[0].1) + (tail + r));
        lemma_dec_u32(p + db, v[0].1, tail + r);
        assert(s =~= (p + db + wb) + enc_payload(v.skip(1)) + r);
        lemma_dec_payload(p + db + wb, v.skip(1), r);
        assert(v =~= seq![v[0]] + v.skip(1));
        assert(enc_payload(v).len() == db.len() + wb.len() + tail.len());
    }
}

/// The parent list encoding unrolls at the head.
pub proof fn lemma_enc_parents_cons(s: Seq<Digest>)
    requires
        s.len() > 0,
    ensures
        enc_parents(s) == s[0].spec_bytes() + enc_parents(s.skip(1)),
    decreases s.len(),
{
    if s.len() == 1 {
        assert(s.drop_last().len() == 0);
        assert(s.skip(1).len() == 0);
        assert(enc_parents(s.drop_last()) =~= Seq::<u8>::empty());
        assert(enc_parents(s.skip(1)) =~= Seq::<u8>::empty());
        assert(enc_parents(s) =~= s[0].spec_bytes() + enc_parents(s.skip(1)));
    } else {
        lemma_enc_parents_cons(s.drop_last());
        assert(s.drop_last()[0] == s[0]);
        assert(s.skip(1).drop_last() =~= s.drop_last().skip(1));
        assert(s.skip(1).last() == s.last());
        let kb = s[0].spec_bytes();
        let t = enc_parents(s.drop_last().skip(1));
        let lk = s.last().spec_bytes();
        assert(enc_parents(s.drop_last()) == kb + t);
        assert(enc_parents(s) == (kb + t) + lk);
        assert(enc_parents(s.skip(1)) == t + lk);
        assert((kb + t) + lk =~= kb + (t + lk));
    }
}

/// Decoding a parent list out of its encoding in context.
pub proof fn lemma_dec_parents(p: Seq<u8>, v: Seq<Digest>, r: Seq<u8>)
    ensures
        dec_parents(p + enc_parents(v) + r, p.len() as int, v.len() as int) == Some(
            (v, p.len() as int + enc_parents(v).len()),
        ),
    decreases v.len(),
{
    let s = p + enc_parents(v) + r;
    if v.len() == 0 {
        assert(enc_parents(v).len() == 0);
    } else {
        lemma_enc_parents_cons(v);
        let db = v[0].spec_bytes();
        let tail = enc_parents(v.skip(1));
        assert(s =~= p + v[0].spec_bytes() + (tail + r));
        lemma_dec_digest(p, v[0], tail + r);
        assert(s =~= (p + db) + enc_parents(v.skip(1)) + r);
        lemma_dec_parents(p + db, v.skip(1), r);
        assert(v =~= seq![v[0]] + v.skip(1));
        assert(enc_parents(v).len() == db.len() + tail.len());
    }
}

/// The word list encoding unrolls at the head.
pub proof fn lemma_enc_words_cons(s: Seq<u128>)
    requires
        s.len() > 0,
    ensures
        enc_words(s) == spec_u128_to_le_bytes(s[0]) + enc_words(s.skip(1)),
    decreases s.len(),
{
    if s.len() == 1 {
        assert(s.drop_last().len() == 0);
        assert(s.skip(1).len() == 0);
        assert(enc_words(s.drop_last()) =~= Seq::<u8>::empty());
        assert(enc_words(s.skip(1)) =~= Seq::<u8>::empty());
        assert(enc_words(s) =~= spec_u128_to_le_bytes(s[0]) + enc_words(s.skip(1)));
    } else {
        lemma_enc_words_cons(s.drop_last());
        assert(s.drop_last()[0] == s[0]);
        assert(s.skip(1).drop_last() =~= s.drop_last().skip(1));
        assert(s.skip(1).last() == s.last());
        let kb = spec_u128_to_le_bytes(s[0]);
        let t = enc_words(s.drop_last().skip(1));
        let lk = spec_u128_to_le_bytes(s.last());
        assert(enc_words(s.drop_last()) == kb + t);
        assert(enc_words(s) == (kb + t) + lk);
        assert(enc_words(s.skip(1)) == t + lk);
        assert((kb + t) + lk =~= kb + (t + lk));
    }
}

/// Decoding a word list out of its encoding in context.
pub proof fn lemma_dec_words(p: Seq<u8>, v: Seq<u128>, r: Seq<u8>)
    ensures
        dec_words(p + enc_words(v) + r, p.len() as int, v.len() as int) == Some(
            (v, p.len() as int + enc_words(v).len()),
        ),
    decreases v.len(),
{
    let s = p + enc_words(v) + r;
    if v.len() == 0 {
        assert(enc_words(v).len() == 0);
    } else {
        lemma_enc_words_cons(v);
        let wb = spec_u128_to_le_bytes(v[0]);
        let tail = enc_words(v.skip(1));
        assert(s =~= p + spec_u128_to_le_bytes(v[0]) + (tail + r));
        lemma_dec_u128(p, v[0], tail + r);
        assert(s =~= (p + wb) + enc_words(v.skip(1)) + r);
        lemma_dec_words(p + wb, v.skip(1), r);
        assert(v =~= seq![v[0]] + v.skip(1));
        assert(enc_words(v).len() == wb.len() + tail.len());
    }
}

/// A header view whose variable-length parts fit their length prefixes.
pub open spec fn header_bounded(h: HeaderView) -> bool {
    &&& h.payload.len() <= u64::MAX
    &&& h.parents.len() <= u64::MAX
    &&& h.timeout_cert.timeouts.len() <= u64::MAX
    &&& h.no_vote_cert.timeouts.len() <= u64::MAX
    &&& entries_bounded(h.timeout_cert.timeouts)
    &&& entries_bounded(h.no_vote_cert.timeouts)
}

/// The encoded front of a header: author, round, payload, parents.
pub open spec fn enc_header_front(h: HeaderView) -> Seq<u8> {
    h.author.spec_bytes() + spec_u64_to_le_bytes(h.round) + spec_u64_to_le_bytes(
        h.payload.len() as u64,
    ) + enc_payload(h.payload) + spec_u64_to_le_bytes(h.parents.len() as u64) + enc_parents(
        h.parents,
    )
}

/// Decoding a header front out of its encoding in context.
pub proof fn lemma_dec_header_front(p: Seq<u8>, h: HeaderView, r: Seq<u8>)
    requires
        header_bounded(h),
    ensures
        dec_header_front(p + enc_header_front(h) + r, p.len() as int) == Some(
            ((h.author, h.round, h.payload, h.parents), p.len() as int + enc_header_front(h).len()),
        ),
{
    lemma_auto_spec_u64_to_from_le_bytes();
    let s = p + enc_header_front(h) + r;
    let ab = h.author.spec_bytes();
    let rb = spec_u64_to_le_bytes(h.round);
    let npb = spec_u64_to_le_bytes(h.payload.len() as u64);
    let plb = enc_payload(h.payload);
    let nab = spec_u64_to_le_bytes(h.parents.len() as u64);
    let pab = enc_parents(h.parents);
    assert(s =~= p + h.author.spec_bytes() + (rb + npb + plb + nab + pab + r));
    lemma_dec_pk(p, h.author, rb + npb + plb + nab + pab + r);
    assert(s =~= (p + ab) + rb + (npb + plb + nab + pab + r));
    lemma_dec_u64(p + ab, h.round, npb + plb + nab + pab + r);
    assert(s =~= (p + ab + rb) + npb + (plb + nab + pab + r));
    lemma_dec_u64(p + ab + rb, h.payload.len() as u64, plb + nab + pab + r);
    lemma_enc_payload_len(h.payload);
    assert(s =~= (p + ab + rb + npb) + enc_payload(h.payload) + (nab + pab + r));
    lemma_dec_payload(p + ab + rb + npb, h.payload, nab + pab + r);
    assert(s =~= (p + ab + rb + npb + plb) + nab + (pab + r));
    lemma_dec_u64(p + ab + rb + npb + plb, h.parents.len() as u64, pab + r);
    lemma_enc_parents_len(h.parents);
    assert(s =~= (p + ab + rb + npb + plb + nab) + enc_parents(h.parents) + r);
    lemma_dec_parents(p + ab + rb + npb + plb + nab, h.parents, r);
}

/// Decoding a header out of its encoding in context.
#[verifier::rlimit(100)]
pub proof fn lemma_dec_header(p: Seq<u8>, h: HeaderView, r: Seq<u8>)
    requires
        header_bounded(h),
    ensures
        dec_header(p + enc_header(h) + r, p.len() as int) == Some(
            (h, p.len() as int + enc_header(h).len()),
        ),
{
    let s = p + enc_header(h) + r;
    let fb = enc_header_front(h);
    let ib = h.id.spec_bytes();
    let tcb = enc_tc(h.timeout_cert);
    let nvb = enc_tc(h.no_vote_cert);
    assert(enc_header(h) =~= fb + ib + tcb + nvb);
    assert(s =~= p + enc_header_front(h) + (ib + tcb + nvb + r));
    lemma_dec_header_front(p, h, ib + tcb + nvb + r);
    assert(s =~= (p + fb) + h.id.spec_bytes() + (tcb + nvb + r));
    lemma_dec_digest(p + fb, h.id, tcb + nvb + r);
    assert(s =~= (p + fb + ib) + enc_tc(h.timeout_cert) + (nvb + r));
    lemma_dec_tc(p + fb + ib, h.timeout_cert, nvb + r);
    assert(s =~= (p + fb + ib + tcb) + enc_tc(h.no_vote_cert) + r);
    lemma_dec_tc(p + fb + ib + tcb, h.no_vote_cert, r);
}

/// A compact header view whose parent list fits its length prefix.
pub open spec fn header_info_bounded(h: HeaderInfoView) -> bool {
    h.parents.len() <= u64::MAX
}

/// Decoding a compact header out of its encoding in context.
pub proof fn lemma_dec_header_info(p: Seq<u8>, h: HeaderInfoView, r: Seq<u8>)
    requires
        header_info_bounded(h),
    ensures
        dec_header_info(p + enc_header_info(h) + r, p.len() as int) == Some(
            (h, p.len() as int + enc_header_info(h).len()),
        ),
{
    lemma_auto_spec_u64_to_from_le_bytes();
    let s = p + enc_header_info(h) + r;
    let ab = h.author.spec_bytes();
    let rb = spec_u64_to_le_bytes(h.round);
    let nab = spec_u64_to_le_bytes(h.parents.len() as u64);
    let pab = enc_parents(h.parents);
    let ib = h.id.spec_bytes();
    assert(s =~= p + h.author.spec_bytes() + (rb + nab + pab + ib + r));
    lemma_dec_pk(p, h.author, rb + nab + pab + ib + r);
    assert(s =~= (p + ab) + rb + (nab + pab + ib + r));
    lemma_dec_u64(p + ab, h.round, nab + pab + ib + r);
    assert(s =~= (p + ab + rb) + nab + (pab + ib + r));
    lemma_dec_u64(p + ab + rb, h.parents.len() as u64, pab + ib + r);
    lemma_enc_parents_len(h.parents);
    assert(s =~= (p + ab + rb + nab) + enc_parents(h.parents) + (ib + r));
    lemma_dec_parents(p + ab + rb + nab, h.parents, ib + r);
    assert(s =~= (p + ab + rb + nab + pab) + h.id.spec_bytes() + r);
    lemma_dec_digest(p + ab + rb + nab + pab, h.id, r);
}

/// A header sum value whose variable-length parts fit their prefixes.
pub open spec fn header_type_bounded(h: HeaderType) -> bool {
    match h {
        HeaderType::Header(hh) => header_bounded(hh@),
        HeaderType::HeaderInfo(hi) => header_info_bounded(hi@),
    }
}

/// Decoding a header sum value out of its encoding: the round trip.
pub proof fn lemma_dec_header_type(h: HeaderType)
    requires
        header_type_bounded(h),
    ensures
        dec_header_type(enc_header_type(h), 0) == Some(
            (header_type_view(h), enc_header_type(h).len() as int),
        ),
{
    let s = enc_header_type(h);
    match h {
        HeaderType::Header(hh) => {
            assert(s =~= seq![0u8] + enc_header(hh@) + Seq::<u8>::empty());
            assert(s[0] == 0u8);
            lemma_dec_header(seq![0u8], hh@, Seq::empty());
        },
        HeaderType::HeaderInfo(hi) => {
            assert(s =~= seq![1u8] + enc_header_info(hi@) + Seq::<u8>::empty());
            assert(s[0] == 1u8);
            lemma_dec_header_info(seq![1u8], hi@, Seq::empty());
        },
    }
}

/// A vote whose signature fits its length prefix.
pub open spec fn vote_bounded(v: VoteView) -> bool {
    v.signature.len() <= u64::MAX
}

/// Decoding a vote out of its encoding: the round trip.
pub proof fn lemma_dec_vote(v: VoteView)
    requires
        vote_bounded(v),
    ensures
        dec_vote(enc_vote(v), 0) == Some((v, enc_vote(v).len() as int)),
{
    lemma_auto_spec_u64_to_from_le_bytes();
    let p = Seq::<u8>::empty();
    let r = Seq::<u8>::empty();
    let s = enc_vote(v);
    let ib = v.id.spec_bytes();
    let rb = spec_u64_to_le_bytes(v.round);
    let ob = v.origin.spec_bytes();
    let ab = v.author.spec_bytes();
    let sb = enc_bytes(v.signature);
    assert(s =~= p + v.id.spec_bytes() + (rb + ob + ab + sb));
    lemma_dec_digest(p, v.id, rb + ob + ab + sb);
    assert(s =~= (p + ib) + rb + (ob + ab + sb));
    lemma_dec_u64(p + ib, v.round, ob + ab + sb);
    assert(s =~= (p + ib + rb) + v.origin.spec_bytes() + (ab + sb));
    lemma_dec_pk(p + ib + rb, v.origin, ab + sb);
    assert(s =~= (p + ib + rb + ob) + v.author.spec_bytes() + sb);
    lemma_dec_pk(p + ib + rb + ob, v.author, sb);
    assert(s =~= (p + ib + rb + ob + ab) + enc_bytes(v.signature) + r);
    lemma_dec_bytes(p + ib + rb + ob + ab, v.signature, r);
}

/// A certificate whose variable-length parts fit their prefixes.
pub open spec fn certificate_bounded(c: CertificateView) -> bool {
    &&& c.bitmap.len() <= u64::MAX
    &&& c.agg_signature.len() <= u64::MAX
}

/// Decoding a certificate out of its encoding: the round trip.
pub proof fn lemma_dec_certificate(c: CertificateView)
    requires
        certificate_bounded(c),
    ensures
        dec_certificate(enc_certificate(c), 0) == Some((c, enc_certificate(c).len() as int)),
{
    lemma_auto_spec_u64_to_from_le_bytes();
    let p = Seq::<u8>::empty();
    let r = Seq::<u8>::empty();
    let s = enc_certificate(c);
    let hb = c.header_id.spec_bytes();
    let rb = spec_u64_to_le_bytes(c.round);
    let ob = c.origin.spec_bytes();
    let nb = spec_u64_to_le_bytes(c.bitmap.len() as u64);
    let wb = enc_words(c.bitmap);
    let sb = enc_bytes(c.agg_signature);
    assert(s =~= p + c.header_id.spec_bytes() + (rb + ob + nb + wb + sb));
    lemma_dec_digest(p, c.header_id, rb + ob + nb + wb + sb);
    assert(s =~= (p + hb) + rb + (ob + nb + wb + sb));
    lemma_dec_u64(p + hb, c.round, ob + nb + wb + sb);
    assert(s =~= (p + hb + rb) + c.origin.spec_bytes() + (nb + wb + sb));
    lemma_dec_pk(p + hb + rb, c.origin, nb + wb + sb);
    assert(s =~= (p + hb + rb + ob) + nb + (wb + sb));
    lemma_dec_u64(p + hb + rb + ob, c.bitmap.len() as u64, wb + sb);
    lemma_enc_words_len(c.bitmap);
    assert(s =~= (p + hb + rb + ob + nb) + enc_words(c.bitmap) + sb);
    lemma_dec_words(p + hb + rb + ob + nb, c.bitmap, sb);
    assert(s =~= (p + hb + rb + ob + nb + wb) + enc_bytes(c.agg_signature) + r);
    lemma_dec_bytes(p + hb + rb + ob + nb + wb, c.agg_signature, r);
}


// ---------------------------------------------------------------------------
// Executable encoders
// ---------------------------------------------------------------------------
/// Encodes a length-prefixed byte string.
pub fn encode_bytes(out: &mut Vec<u8>, v: &Vec<u8>)
    ensures
        final(out)@ == old(out)@ + enc_bytes(v@),
{
    proof {
        lemma_auto_spec_u64_to_from_le_bytes();
    }
    let mut lb = vstd::bytes::u64_to_le_bytes(v.len() as u64);
    out.append(&mut lb);
    let mut body = crate::committee::clone_bytes(v);
    out.append(&mut body);
    proof {
        assert(out@ =~= old(out)@ + enc_bytes(v@));
    }
}

/// Encodes an `(author, signature)` entry list.
pub fn encode_entries(out: &mut Vec<u8>, entries: &Vec<(PublicKey, Vec<u8>)>)
    ensures
        final(out)@ == old(out)@ + enc_entries(ev(entries@)),
{
    let n = entries.len();
    let mut i: usize = 0;
    proof {
        assert(ev(entries@.subrange(0, 0)) =~= Seq::<(PublicKey, Seq<u8>)>::empty());
    }
    while i < n
        invariant
            n == entries@.len(),
            i <= n,
            out@ == old(out)@ + enc_entries(ev(entries@.subrange(0, i as int))),
        decreases n - i,
    {
        let mut kb = entries[i].0.to_bytes();
        out.append(&mut kb);
        encode_bytes(out, &entries[i].1);
        proof {
            let pre = ev(entries@.subrange(0, i as int));
            let post = ev(entries@.subrange(0, i + 1));
            assert(post.drop_last() =~= pre);
            assert(post.last() == (entries@[i as int].0, entries@[i as int].1@));
            assert(out@ =~= old(out)@ + enc_entries(post));
        }
        i += 1;
    }
    proof {
        assert(entries@.subrange(0, n as int) =~= entries@);
    }
}

/// The views of an entry list; shorthand used by the encoder contracts.
pub open spec fn ev(s: Seq<(PublicKey, Vec<u8>)>) -> Seq<(PublicKey, Seq<u8>)> {
    s.map_values(|e: (PublicKey, Vec<u8>)| (e.0, e.1@))
}

/// Encodes a timeout or no-vote certificate body.
pub fn encode_tc_parts(out: &mut Vec<u8>, round: u64, entries: &Vec<(PublicKey, Vec<u8>)>)
    ensures
        final(out)@ == old(out)@ + enc_tc(TimeoutCertView { round, timeouts: ev(entries@) }),
{
    proof {
        lemma_auto_spec_u64_to_from_le_bytes();
    }
    let mut rb = vstd::bytes::u64_to_le_bytes(round);
    out.append(&mut rb);
    let mut nb = vstd::bytes::u64_to_le_bytes(entries.len() as u64);
    out.append(&mut nb);
    encode_entries(out, entries);
    proof {
        assert(out@ =~= old(out)@ + enc_tc(TimeoutCertView { round, timeouts: ev(entries@) }));
    }
}

/// Encodes a full header.
pub fn encode_header(h: &Header) -> (r: Vec<u8>)
    ensures
        r@ == enc_header(h@),
{
    proof {
        lemma_auto_spec_u64_to_from_le_bytes();
    }
    let mut out: Vec<u8> = h.author.to_bytes();
    let mut rb = vstd::bytes::u64_to_le_bytes(h.round);
    out.append(&mut rb);
    let mut npb = vstd::bytes::u64_to_le_bytes(h.payload.len() as u64);
    out.append(&mut npb);
    let np = h.payload.len();
    let mut i: usize = 0;
    let ghost base = out@;
    while i < np
        invariant
            np == h.payload@.len(),
            i <= np,
            out@ == base + enc_payload(h.payload@.subrange(0, i as int)),
        decreases np - i,
    {
        let mut db = h.payload[i].0.to_bytes();
        out.append(&mut db);
        let mut wb = vstd::bytes::u32_to_le_bytes(h.payload[i].1);
        out.append(&mut wb);
        proof {
            assert(h.payload@.subrange(0, i + 1).drop_last() =~= h.payload@.subrange(0, i as int));
            assert(out@ =~= base + enc_payload(h.payload@.subrange(0, i + 1)));
        }
        i += 1;
    }
    proof {
        assert(h.payload@.subrange(0, np as int) =~= h.payload@);
    }
    let mut nab = vstd::bytes::u64_to_le_bytes(h.parents.len() as u64);
    out.append(&mut nab);
    let na = h.parents.len();
    let mut j: usize = 0;
    let ghost base2 = out@;
    while j < na
        invariant
            na == h.parents@.len(),
            j <= na,
            out@ == base2 + enc_parents(h.parents@.subrange(0, j as int)),
        decreases na - j,
    {
        let mut pb = h.parents[j].to_bytes();
        out.append(&mut pb);
        proof {
            assert(h.parents@.subrange(0, j + 1).drop_last() =~= h.parents@.subrange(0, j as int));
            assert(out@ =~= base2 + enc_parents(h.parents@.subrange(0, j + 1)));
        }
        j += 1;
    }
    proof {
        assert(h.parents@.subrange(0, na as int) =~= h.parents@);
    }
    let mut ib = h.id.to_bytes();
    out.append(&mut ib);
    encode_tc_parts(&mut out, h.timeout_cert.round, &h.timeout_cert.timeouts);
    encode_tc_parts(&mut out, h.no_vote_cert.round, &h.no_vote_cert.no_votes);
    proof {
        assert(h@.timeout_cert =~~= (TimeoutCertView {
            round: h.timeout_cert.round,
            timeouts: ev(h.timeout_cert.timeouts@),
        }));
        assert(h@.no_vote_cert =~~= (TimeoutCertView {
            round: h.no_vote_cert.round,
            timeouts: ev(h.no_vote_cert.no_votes@),
        }));
        assert(out@ =~= enc_header(h@));
    }
    out
}

/// Encodes a compact header.
pub fn encode_header_info(h: &HeaderInfo) -> (r: Vec<u8>)
    ensures
        r@ == enc_header_info(h@),
{
    proof {
        lemma_auto_spec_u64_to_from_le_bytes();
    }
    let mut out: Vec<u8> = h.author.to_bytes();
    let mut rb = vstd::bytes::u64_to_le_bytes(h.round);
    out.append(&mut rb);
    let mut nab = vstd::bytes::u64_to_le_bytes(h.parents.len() as u64);
    out.append(&mut nab);
    let na = h.parents.len();
    let mut j: usize = 0;
    let ghost base2 = out@;
    while j < na
        invariant
            na == h.parents@.len(),
            j <= na,
            out@ == base2 + enc_parents(h.parents@.subrange(0, j as int)),
        decreases na - j,
    {
        let mut pb = h.parents[j].to_bytes();
        out.append(&mut pb);
        proof {
            assert(h.parents@.subrange(0, j + 1).drop_last() =~= h.parents@.subrange(0, j as int));
            assert(out@ =~= base2 + enc_parents(h.parents@.subrange(0, j + 1)));
        }
        j += 1;
    }
    proof {
        assert(h.parents@.subrange(0, na as int) =~= h.parents@);
    }
    let mut ib = h.id.to_bytes();
    out.append(&mut ib);
    proof {
        assert(out@ =~= enc_header_info(h@));
    }
    out
}

/// Encodes a header sum value: a tag byte then the body.
pub fn encode_header_type(h: &HeaderType) -> (r: Vec<u8>)
    ensures
        r@ == enc_header_type(*h),
{
    match h {
        HeaderType::Header(hh) => {
            let mut out: Vec<u8> = Vec::new();
            out.push(0u8);
            let mut body = encode_header(hh);
            out.append(&mut body);
            proof {
                assert(out@ =~= enc_header_type(*h));
            }
            out
        },
        HeaderType::HeaderInfo(hi) => {
            let mut out: Vec<u8> = Vec::new();
            out.push(1u8);
            let mut body = encode_header_info(hi);
            out.append(&mut body);
            proof {
                assert(out@ =~= enc_header_type(*h));
            }
            out
        },
    }
}

/// Encodes a vote.
pub fn encode_vote(v: &Vote) -> (r: Vec<u8>)
    ensures
        r@ == enc_vote(v@),
{
    let mut out: Vec<u8> = v.id.to_bytes();
    let mut rb = vstd::bytes::u64_to_le_bytes(v.round);
    out.append(&mut rb);
    let mut ob = v.origin.to_bytes();
    out.append(&mut ob);
    let mut ab = v.author.to_bytes();
    out.append(&mut ab);
    encode_bytes(&mut out, &v.signature);
    proof {
        assert(out@ =~= enc_vote(v@));
    }
    out
}

/// Encodes a certificate.
pub fn encode_certificate(c: &Certificate) -> (r: Vec<u8>)
    ensures
        r@ == enc_certificate(c@),
{
    proof {
        lemma_auto_spec_u64_to_from_le_bytes();
    }
    let mut out: Vec<u8> = c.header_id.to_bytes();
    let mut rb = vstd::bytes::u64_to_le_bytes(c.round);
    out.append(&mut rb);
    let mut ob = c.origin.to_bytes();
    out.append(&mut ob);
    let mut nb = vstd::bytes::u64_to_le_bytes(c.bitmap.len() as u64);
    out.append(&mut nb);
    let nw = c.bitmap.len();
    let mut i: usize = 0;
    let ghost base = out@;
    while i < nw
        invariant
            nw == c.bitmap@.len(),
            i <= nw,
            out@ == base + enc_words(c.bitmap@.subrange(0, i as int)),
        decreases nw - i,
    {
        let mut wb = vstd::bytes::u128_to_le_bytes(c.bitmap[i]);
        out.append(&mut wb);
        proof {
            assert(c.bitmap@.subrange(0, i + 1).drop_last() =~= c.bitmap@.subrange(0, i as int));
            assert(out@ =~= base + enc_words(c.bitmap@.subrange(0, i + 1)));
        }
        i += 1;
    }
    proof {
        assert(c.bitmap@.subrange(0, nw as int) =~= c.bitmap@);
    }
    encode_bytes(&mut out, &c.agg_signature);
    proof {
        assert(out@ =~= enc_certificate(c@));
    }
    out
}


// ---------------------------------------------------------------------------
// Executable decoders
// ---------------------------------------------------------------------------
/// Decodes a 64-bit integer; mirrors `dec_u64`.
pub fn decode_u64(bytes: &Vec<u8>, pos: usize) -> (r: Option<(u64, usize)>)
    ensures
        match r {
            Some((x, p2)) => dec_u64(bytes@, pos as int) == Some((x, p2 as int)),
            None => dec_u64(bytes@, pos as int) is None,
        },
{
    if bytes.len() >= 8 && pos <= bytes.len() - 8 {
        let x = vstd::bytes::u64_from_le_bytes(
            vstd::slice::slice_subrange(bytes.as_slice(), pos, pos + 8),
        );
        Some((x, pos + 8))
    } else {
        None
    }
}

/// Decodes a 32-bit integer; mirrors `dec_u32`.
pub fn decode_u32(bytes: &Vec<u8>, pos: usize) -> (r: Option<(u32, usize)>)
    ensures
        match r {
            Some((x, p2)) => dec_u32(bytes@, pos as int) == Some((x, p2 as int)),
            None => dec_u32(bytes@, pos as int) is None,
        },
{
    if bytes.len() >= 4 && pos <= bytes.len() - 4 {
        let x = vstd::bytes::u32_from_le_bytes(
            vstd::slice::slice_subrange(bytes.as_slice(), pos, pos + 4),
        );
        Some((x, pos + 4))
    } else {
        None
    }
}

/// Decodes a 128-bit integer; mirrors `dec_u128`.
pub fn decode_u128(bytes: &Vec<u8>, pos: usize) -> (r: Option<(u128, usize)>)
    ensures
        match r {
            Some((x, p2)) => dec_u128(bytes@, pos as int) == Some((x, p2 as int)),
            None => dec_u128(bytes@, pos as int) is None,
        },
{
    if bytes.len() >= 16 && pos <= bytes.len() - 16 {
        let x = vstd::bytes::u128_from_le_bytes(
            vstd::slice::slice_subrange(bytes.as_slice(), pos, pos + 16),
        );
        Some((x, pos + 16))
    } else {
        None
    }
}

/// Decodes a digest; mirrors `dec_digest`.
pub fn decode_digest(bytes: &Vec<u8>, pos: usize) -> (r: Option<(Digest, usize)>)
    ensures
        match r {
            Some((x, p2)) => dec_digest(bytes@, pos as int) == Some((x, p2 as int)),
            None => dec_digest(bytes@, pos as int) is None,
        },
{
    if bytes.len() >= 32 && pos <= bytes.len() - 32 {
        let x = Digest::from_bytes(vstd::slice::slice_subrange(bytes.as_slice(), pos, pos + 32));
        Some((x, pos + 32))
    } else {
        None
    }
}

/// Decodes an identity key; mirrors `dec_pk`.
pub fn decode_pk(bytes: &Vec<u8>, pos: usize) -> (r: Option<(PublicKey, usize)>)
    ensures
        match r {
            Some((x, p2)) => dec_pk(bytes@, pos as int) == Some((x, p2 as int)),
            None => dec_pk(bytes@, pos as int) is None,
        },
{
    if bytes.len() >= 32 && pos <= bytes.len() - 32 {
        let x = PublicKey::from_bytes(vstd::slice::slice_subrange(bytes.as_slice(), pos, pos + 32));
        Some((x, pos + 32))
    } else {
        None
    }
}

/// Decodes a length-prefixed byte string; mirrors `dec_bytes`.
pub fn decode_bytes(bytes: &Vec<u8>, pos: usize) -> (r: Option<(Vec<u8>, usize)>)
    ensures
        match r {
            Some((v, p2)) => dec_bytes(bytes@, pos as int) == Some((v@, p2 as int)),
            None => dec_bytes(bytes@, pos as int) is None,
        },
{
    match decode_u64(bytes, pos) {
        None => None,
        Some((n, p2)) => {
            if n <= (bytes.len() - p2) as u64 {
                let k = n as usize;
                let v = vstd::slice::slice_to_vec(
                    vstd::slice::slice_subrange(bytes.as_slice(), p2, p2 + k),
                );
                Some((v, p2 + k))
            } else {
                None
            }
        },
    }
}

/// Appends decoded items to an already-decoded prefix.
pub open spec fn compose_entries(
    a: Seq<(PublicKey, Seq<u8>)>,
    o: Option<(Seq<(PublicKey, Seq<u8>)>, int)>,
) -> Option<(Seq<(PublicKey, Seq<u8>)>, int)> {
    match o {
        None => None,
        Some((v, e)) => Some((a + v, e)),
    }
}

/// Decodes `n` entries; mirrors `dec_entries`.
pub fn decode_entries(bytes: &Vec<u8>, pos: usize, n: u64) -> (r: Option<
    (Vec<(PublicKey, Vec<u8>)>, usize),
>)
    requires
        n <= bytes@.len(),
    ensures
        match r {
            Some((v, p2)) => dec_entries(bytes@, pos as int, n as int) == Some(
                (ev(v@), p2 as int),
            ),
            None => dec_entries(bytes@, pos as int, n as int) is None,
        },
{
    let mut acc: Vec<(PublicKey, Vec<u8>)> = Vec::new();
    let mut cur: usize = pos;
    let mut k: u64 = 0;
    proof {
        assert(ev(acc@) =~= Seq::<(PublicKey, Seq<u8>)>::empty());
    }
    while k < n
        invariant
            k <= n,
            n <= bytes@.len(),
            acc@.len() == k,
            dec_entries(bytes@, pos as int, n as int) == compose_entries(
                ev(acc@),
                dec_entries(bytes@, cur as int, n as int - k),
            ),
        decreases n - k,
    {
        let (pk, c2) = match decode_pk(bytes, cur) {
            Some(x) => x,
            None => {
                return None;
            },
        };
        let (sig, c3) = match decode_bytes(bytes, c2) {
            Some(x) => x,
            None => {
                return None;
            },
        };
        proof {
            let tail = dec_entries(bytes@, c3 as int, n as int - k - 1);
            assert(dec_entries(bytes@, cur as int, n as int - k) == (match tail {
                None => None::<(Seq<(PublicKey, Seq<u8>)>, int)>,
                Some((rest, e)) => Some((seq![(pk, sig@)] + rest, e)),
            }));
            assert(ev(acc@.push((pk, sig))) =~= ev(acc@).push((pk, sig@)));
            if tail is Some {
                let (rest, e) = tail.unwrap();
                assert(ev(acc@) + (seq![(pk, sig@)] + rest) =~= ev(acc@).push((pk, sig@)) + rest);
            }
        }
        acc.push((pk, sig));
        cur = c3;
        k = k + 1;
    }
    proof {
        assert(dec_entries(bytes@, cur as int, 0) == Some((Seq::<(PublicKey, Seq<u8>)>::empty(), cur as int)));
        assert(ev(acc@) + Seq::<(PublicKey, Seq<u8>)>::empty() =~= ev(acc@));
    }
    Some((acc, cur))
}

/// Decodes a count-prefixed entry list; mirrors `dec_counted_entries`.
pub fn decode_counted_entries(bytes: &Vec<u8>, pos: usize) -> (r: Option<
    (Vec<(PublicKey, Vec<u8>)>, usize),
>)
    ensures
        match r {
            Some((v, p2)) => dec_counted_entries(bytes@, pos as int) == Some(
                (ev(v@), p2 as int),
            ),
            None => dec_counted_entries(bytes@, pos as int) is None,
        },
{
    match decode_u64(bytes, pos) {
        None => None,
        Some((n, p2)) => {
            if n <= bytes.len() as u64 {
                decode_entries(bytes, p2, n)
            } else {
                None
            }
        },
    }
}

/// Decodes a timeout certificate body; mirrors `dec_tc`.
pub fn decode_tc(bytes: &Vec<u8>, pos: usize) -> (r: Option<
    ((u64, Vec<(PublicKey, Vec<u8>)>), usize),
>)
    ensures
        match r {
            Some(((round, v), p2)) => dec_tc(bytes@, pos as int) == Some(
                (TimeoutCertView { round, timeouts: ev(v@) }, p2 as int),
            ),
            None => dec_tc(bytes@, pos as int) is None,
        },
{
    match decode_u64(bytes, pos) {
        None => None,
        Some((round, p2)) => match decode_counted_entries(bytes, p2) {
            None => None,
            Some((v, p3)) => Some(((round, v), p3)),
        },
    }
}

/// Appends decoded payload items to an already-decoded prefix.
pub open spec fn compose_payload(
    a: Seq<(Digest, WorkerId)>,
    o: Option<(Seq<(Digest, WorkerId)>, int)>,
) -> Option<(Seq<(Digest, WorkerId)>, int)> {
    match o {
        None => None,
        Some((v, e)) => Some((a + v, e)),
    }
}

/// Decodes `n` payload entries; mirrors `dec_payload`.
pub fn decode_payload(bytes: &Vec<u8>, pos: usize, n: u64) -> (r: Option<
    (Vec<(Digest, WorkerId)>, usize),
>)
    requires
        n <= bytes@.len(),
    ensures
        match r {
            Some((v, p2)) => dec_payload(bytes@, pos as int, n as int) == Some((v@, p2 as int)),
            None => dec_payload(bytes@, pos as int, n as int) is None,
        },
{
    let mut acc: Vec<(Digest, WorkerId)> = Vec::new();
    let mut cur: usize = pos;
    let mut k: u64 = 0;
    while k < n
        invariant
            k <= n,
            n <= bytes@.len(),
            acc@.len() == k,
            dec_payload(bytes@, pos as int, n as int) == compose_payload(
                acc@,
                dec_payload(bytes@, cur as int, n as int - k),
            ),
        decreases n - k,
    {
        let (d, c2) = match decode_digest(bytes, cur) {
            Some(x) => x,
            None => {
                return None;
            },
        };
        let (w, c3) = match decode_u32(bytes, c2) {
            Some(x) => x,
            None => {
                return None;
            },
        };
        proof {
            let tail = dec_payload(bytes@, c3 as int, n as int - k - 1);
            if tail is Some {
                let (rest, e) = tail.unwrap();
                assert(acc@ + (seq![(d, w)] + rest) =~= acc@.push((d, w)) + rest);
            }
        }
        acc.push((d, w));
        cur = c3;
        k = k + 1;
    }
    proof {
        assert(acc@ + Seq::<(Digest, WorkerId)>::empty() =~= acc@);
    }
    Some((acc, cur))
}

/// Appends decoded digests to an already-decoded prefix.
pub open spec fn compose_parents(a: Seq<Digest>, o: Option<(Seq<Digest>, int)>) -> Option<
    (Seq<Digest>, int),
> {
    match o {
        None => None,
        Some((v, e)) => Some((a + v, e)),
    }
}

/// Decodes `n` parent digests; mirrors `dec_parents`.
pub fn decode_parents(bytes: &Vec<u8>, pos: usize, n: u64) -> (r: Option<(Vec<Digest>, usize)>)
    requires
        n <= bytes@.len(),
    ensures
        match r {
            Some((v, p2)) => dec_parents(bytes@, pos as int, n as int) == Some((v@, p2 as int)),
            None => dec_parents(bytes@, pos as int, n as int) is None,
        },
{
    let mut acc: Vec<Digest> = Vec::new();
    let mut cur: usize = pos;
    let mut k: u64 = 0;
    while k < n
        invariant
            k <= n,
            n <= bytes@.len(),
            acc@.len() == k,
            dec_parents(bytes@, pos as int, n as int) == compose_parents(
                acc@,
                dec_parents(bytes@, cur as int, n as int - k),
            ),
        decreases n - k,
    {
        let (d, c2) = match decode_digest(bytes, cur) {
            Some(x) => x,
            None => {
                return None;
            },
        };
        proof {
            let tail = dec_parents(bytes@, c2 as int, n as int - k - 1);
            if tail is Some {
                let (rest, e) = tail.unwrap();
                assert(acc@ + (seq![d] + rest) =~= acc@.push(d) + rest);
            }
        }
        acc.push(d);
        cur = c2;
        k = k + 1;
    }
    proof {
        assert(acc@ + Seq::<Digest>::empty() =~= acc@);
    }
    Some((acc, cur))
}

/// Decodes a count-prefixed parent list; mirrors `dec_counted_parents`.
pub fn decode_counted_parents(bytes: &Vec<u8>, pos: usize) -> (r: Option<(Vec<Digest>, usize)>)
    ensures
        match r {
            Some((v, p2)) => dec_counted_parents(bytes@, pos as int) == Some((v@, p2 as int)),
            None => dec_counted_parents(bytes@, pos as int) is None,
        },
{
    match decode_u64(bytes, pos) {
        None => None,
        Some((n, p2)) => {
            if n <= bytes.len() as u64 {
                decode_parents(bytes, p2, n)
            } else {
                None
            }
        },
    }
}

/// Appends decoded words to an already-decoded prefix.
pub open spec fn compose_words(a: Seq<u128>, o: Option<(Seq<u128>, int)>) -> Option<
    (Seq<u128>, int),
> {
    match o {
        None => None,
        Some((v, e)) => Some((a + v, e)),
    }
}

/// Decodes `n` bitmap words; mirrors `dec_words`.
pub fn decode_words(bytes: &Vec<u8>, pos: usize, n: u64) -> (r: Option<(Vec<u128>, usize)>)
    requires
        n <= bytes@.len(),
    ensures
        match r {
            Some((v, p2)) => dec_words(bytes@, pos as int, n as int) == Some((v@, p2 as int)),
            None => dec_words(bytes@, pos as int, n as int) is None,
        },
{
    let mut acc: Vec<u128> = Vec::new();
    let mut cur: usize = pos;
    let mut k: u64 = 0;
    while k < n
        invariant
            k <= n,
            n <= bytes@.len(),
            acc@.len() == k,
            dec_words(bytes@, pos as int, n as int) == compose_words(
                acc@,
                dec_words(bytes@, cur as int, n as int - k),
            ),
        decreases n - k,
    {
        let (w, c2) = match decode_u128(bytes, cur) {
            Some(x) => x,
            None => {
                return None;
            },
        };
        proof {
            let tail = dec_words(bytes@, c2 as int, n as int - k - 1);
            if tail is Some {
                let (rest, e) = tail.unwrap();
                assert(acc@ + (seq![w] + rest) =~= acc@.push(w) + rest);
            }
        }
        acc.push(w);
        cur = c2;
        k = k + 1;
    }
    proof {
        assert(acc@ + Seq::<u128>::empty() =~= acc@);
    }
    Some((acc, cur))
}

/// Decodes a full header body; mirrors `dec_header`.
pub fn decode_header(bytes: &Vec<u8>, pos: usize) -> (r: Option<(Header, usize)>)
    ensures
        match r {
            Some((h, p2)) => dec_header(bytes@, pos as int) == Some((h@, p2 as int)),
            None => dec_header(bytes@, pos as int) is None,
        },
{
    let (author, c2) = match decode_pk(bytes, pos) {
        Some(x) => x,
        None => {
            return None;
        },
    };
    let (round, c3) = match decode_u64(bytes, c2) {
        Some(x) => x,
        None => {
            return None;
        },
    };
    let (np, c4) = match decode_u64(bytes, c3) {
        Some(x) => x,
        None => {
            return None;
        },
    };
    if np > bytes.len() as u64 {
        return None;
    }
    let (payload, c5) = match decode_payload(bytes, c4, np) {
        Some(x) => x,
        None => {
            return None;
        },
    };
    let (parents, c6) = match decode_counted_parents(bytes, c5) {
        Some(x) => x,
        None => {
            return None;
        },
    };
    let (id, c7) = match decode_digest(bytes, c6) {
        Some(x) => x,
        None => {
            return None;
        },
    };
    let ((tcr, tce), c8) = match decode_tc(bytes, c7) {
        Some(x) => x,
        None => {
            return None;
        },
    };
    let ((nvr, nve), c9) = match decode_tc(bytes, c8) {
        Some(x) => x,
        None => {
            return None;
        },
    };
    let h = Header {
        author,
        round,
        payload,
        parents,
        id,
        timeout_cert: TimeoutCert { round: tcr, timeouts: tce },
        no_vote_cert: NoVoteCert { round: nvr, no_votes: nve },
    };
    proof {
        assert(h@.timeout_cert =~~= (TimeoutCertView { round: tcr, timeouts: ev(tce@) }));
        assert(h@.no_vote_cert =~~= (TimeoutCertView { round: nvr, timeouts: ev(nve@) }));
        assert(dec_header(bytes@, pos as int) =~~= Some((h@, c9 as int)));
    }
    Some((h, c9))
}

/// Decodes a compact header body; mirrors `dec_header_info`.
pub fn decode_header_info(bytes: &Vec<u8>, pos: usize) -> (r: Option<(HeaderInfo, usize)>)
    ensures
        match r {
            Some((h, p2)) => dec_header_info(bytes@, pos as int) == Some((h@, p2 as int)),
            None => dec_header_info(bytes@, pos as int) is None,
        },
{
    let (author, c2) = match decode_pk(bytes, pos) {
        Some(x) => x,
        None => {
            return None;
        },
    };
    let (round, c3) = match decode_u64(bytes, c2) {
        Some(x) => x,
        None => {
            return None;
        },
    };
    let (parents, c4) = match decode_counted_parents(bytes, c3) {
        Some(x) => x,
        None => {
            return None;
        },
    };
    let (id, c5) = match decode_digest(bytes, c4) {
        Some(x) => x,
        None => {
            return None;
        },
    };
    let h = HeaderInfo { author, round, parents, id };
    Some((h, c5))
}

/// Decodes a complete header sum value from a whole buffer; trailing bytes
/// are rejected.
pub fn decode_header_type(bytes: &Vec<u8>) -> (r: Option<HeaderType>)
    ensures
        match r {
            Some(ht) => dec_header_type(bytes@, 0) == Some(
                (header_type_view(ht), bytes@.len() as int),
            ),
            None => !(exists|v: HeaderTypeView|
                dec_header_type(bytes@, 0) == Some((v, bytes@.len() as int))),
        },
{
    if bytes.len() < 1 {
        return None;
    }
    let tag = bytes[0];
    if tag == 0u8 {
        match decode_header(bytes, 1) {
            Some((h, p2)) => {
                if p2 == bytes.len() {
                    Some(HeaderType::Header(h))
                } else {
                    None
                }
            },
            None => None,
        }
    } else if tag == 1u8 {
        match decode_header_info(bytes, 1) {
            Some((h, p2)) => {
                if p2 == bytes.len() {
                    Some(HeaderType::HeaderInfo(h))
                } else {
                    None
                }
            },
            None => None,
        }
    } else {
        None
    }
}

/// Decodes a complete vote from a whole buffer; trailing bytes are
/// rejected.
pub fn decode_vote(bytes: &Vec<u8>) -> (r: Option<Vote>)
    ensures
        match r {
            Some(v) => dec_vote(bytes@, 0) == Some((v@, bytes@.len() as int)),
            None => !(exists|w: VoteView| dec_vote(bytes@, 0) == Some((w, bytes@.len() as int))),
        },
{
    let (id, c2) = match decode_digest(bytes, 0) {
        Some(x) => x,
        None => {
            return None;
        },
    };
    let (round, c3) = match decode_u64(bytes, c2) {
        Some(x) => x,
        None => {
            return None;
        },
    };
    let (origin, c4) = match decode_pk(bytes, c3) {
        Some(x) => x,
        None => {
            return None;
        },
    };
    let (author, c5) = match decode_pk(bytes, c4) {
        Some(x) => x,
        None => {
            return None;
        },
    };
    let (signature, c6) = match decode_bytes(bytes, c5) {
        Some(x) => x,
        None => {
            return None;
        },
    };
    if c6 != bytes.len() {
        return None;
    }
    Some(Vote { id, round, origin, author, signature })
}

/// Decodes a complete certificate from a whole buffer; trailing bytes are
/// rejected.
pub fn decode_certificate(bytes: &Vec<u8>) -> (r: Option<Certificate>)
    ensures
        match r {
            Some(c) => dec_certificate(bytes@, 0) == Some((c@, bytes@.len() as int)),
            None => !(exists|w: CertificateView|
                dec_certificate(bytes@, 0) == Some((w, bytes@.len() as int))),
        },
{
    let (header_id, c2) = match decode_digest(bytes, 0) {
        Some(x) => x,
        None => {
            return None;
        },
    };
    let (round, c3) = match decode_u64(bytes, c2) {
        Some(x) => x,
        None => {
            return None;
        },
    };
    let (origin, c4) = match decode_pk(bytes, c3) {
        Some(x) => x,
        None => {
            return None;
        },
    };
    let (nw, c5) = match decode_u64(bytes, c4) {
        Some(x) => x,
        None => {
            return None;
        },
    };
    if nw > bytes.len() as u64 {
        return None;
    }
    let (bitmap, c6) = match decode_words(bytes, c5, nw) {
        Some(x) => x,
        None => {
            return None;
        },
    };
    let (agg_signature, c7) = match decode_bytes(bytes, c6) {
        Some(x) => x,
        None => {
            return None;
        },
    };
    if c7 != bytes.len() {
        return None;
    }
    Some(Certificate { header_id, round, origin, bitmap, agg_signature })
}


// ---------------------------------------------------------------------------
// Digest stability
// ---------------------------------------------------------------------------
/// Digest stability for headers: decoding a serialized header gives back
/// the same header, so its canonical digest is unchanged.
pub proof fn lemma_digest_stable_header(h: HeaderView)
    requires
        header_bounded(h),
    ensures
        dec_header(enc_header(h), 0) == Some((h, enc_header(h).len() as int)),
        crate::messages::spec_header_digest(dec_header(enc_header(h), 0).unwrap().0)
            == crate::messages::spec_header_digest(h),
{
    lemma_dec_header(Seq::empty(), h, Seq::empty());
    assert(Seq::empty() + enc_header(h) + Seq::empty() =~= enc_header(h));
}

/// Digest stability for votes: decoding a serialized vote gives back the
/// same vote, so its canonical digest is unchanged.
pub proof fn lemma_digest_stable_vote(v: VoteView)
    requires
        vote_bounded(v),
    ensures
        dec_vote(enc_vote(v), 0) == Some((v, enc_vote(v).len() as int)),
        crate::messages::spec_vote_digest(dec_vote(enc_vote(v), 0).unwrap().0)
            == crate::messages::spec_vote_digest(v),
{
    lemma_dec_vote(v);
}

/// Digest stability for certificates: decoding a serialized certificate
/// gives back the same certificate, so its canonical digest is unchanged.
pub proof fn lemma_digest_stable_certificate(c: CertificateView)
    requires
        certificate_bounded(c),
    ensures
        dec_certificate(enc_certificate(c), 0) == Some((c, enc_certificate(c).len() as int)),
        crate::messages::spec_certificate_digest(dec_certificate(enc_certificate(c), 0).unwrap().0)
            == crate::messages::spec_certificate_digest(c),
{
    lemma_dec_certificate(c);
}

/// Values built from vectors always fit the 64-bit length prefixes.
pub proof fn lemma_header_type_bounded(ht: HeaderType)
    ensures
        header_type_bounded(ht),
{
    broadcast use vstd::std_specs::vec::axiom_spec_len;

    match ht {
        HeaderType::Header(h) => {
            assert(vstd::std_specs::vec::spec_vec_len(&h.payload) == h.payload@.len());
            assert(vstd::std_specs::vec::spec_vec_len(&h.parents) == h.parents@.len());
            assert(vstd::std_specs::vec::spec_vec_len(&h.timeout_cert.timeouts)
                == h.timeout_cert.timeouts@.len());
            assert(vstd::std_specs::vec::spec_vec_len(&h.no_vote_cert.no_votes)
                == h.no_vote_cert.no_votes@.len());
            assert forall|i: int| 0 <= i < h@.timeout_cert.timeouts.len() implies h@.timeout_cert.timeouts[i].1.len()
                <= u64::MAX by {
                let v = h.timeout_cert.timeouts@[i].1;
                assert(vstd::std_specs::vec::spec_vec_len(&v) == v@.len());
                assert(h@.timeout_cert.timeouts[i].1 == v@);
            }
            assert forall|i: int| 0 <= i < h@.no_vote_cert.timeouts.len() implies h@.no_vote_cert.timeouts[i].1.len()
                <= u64::MAX by {
                let v = h.no_vote_cert.no_votes@[i].1;
                assert(vstd::std_specs::vec::spec_vec_len(&v) == v@.len());
                assert(h@.no_vote_cert.timeouts[i].1 == v@);
            }
        },
        HeaderType::HeaderInfo(hi) => {
            assert(vstd::std_specs::vec::spec_vec_len(&hi.parents) == hi.parents@.len());
        },
    }
}

} // verus!
