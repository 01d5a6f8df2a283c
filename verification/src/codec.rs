//! The canonical binary codec for actions and state.
//!
//! Every value has exactly one encoding: a one-byte variant tag for actions,
//! a four-byte little-endian length prefix before every byte string or
//! UTF-8-encoded text field, a fixed eight-byte little-endian form for
//! 64-bit integers, and a four-byte count before every repeated section.
//! Decoding accepts exactly the canonical encodings and consumes the whole
//! buffer, so encoding is injective and decode is its inverse.

use vstd::prelude::*;

use vstd::bytes::spec_u32_from_le_bytes;
use vstd::bytes::spec_u32_to_le_bytes;
use vstd::bytes::spec_u64_from_le_bytes;
use vstd::bytes::spec_u64_to_le_bytes;
use vstd::bytes::lemma_auto_spec_u32_to_from_le_bytes;
use vstd::bytes::lemma_auto_spec_u64_to_from_le_bytes;
use vstd::bytes::u32_from_le_bytes;
use vstd::bytes::u32_to_le_bytes;
use vstd::bytes::u64_from_le_bytes;
use vstd::bytes::u64_to_le_bytes;
use vstd::slice::slice_subrange;
use vstd::slice::slice_to_vec;
use vstd::utf8::encode_utf8;
use vstd::utf8::decode_utf8;
use vstd::utf8::valid_utf8;
use vstd::utf8::encode_utf8_valid_utf8;
use vstd::utf8::encode_utf8_decode_utf8;
use vstd::utf8::decode_utf8_encode_utf8;

use crate::errors::ContractError;
use crate::state::ActionView;
use crate::state::Restaurant;
use crate::state::RestaurantReview;
use crate::state::RestaurantReviewAction;
use crate::state::Review;
use crate::state::ReviewView;
use crate::state::StateView;
use crate::state::state_wf;
use crate::state::unique_keys;

verus! {

/// A byte string, length-prefixed.
pub open spec fn enc_bytes(b: Seq<u8>) -> Seq<u8> {
    spec_u32_to_le_bytes(b.len() as u32) + b
}

/// A text field: its UTF-8 bytes, length-prefixed.
pub open spec fn enc_str(s: Seq<char>) -> Seq<u8> {
    enc_bytes(encode_utf8(s))
}

/// Whether a byte string fits behind a four-byte length prefix.
pub open spec fn bytes_ok(b: Seq<u8>) -> bool {
    b.len() <= u32::MAX
}

/// Whether a text field's UTF-8 form fits behind the length prefix.
pub open spec fn str_ok(s: Seq<char>) -> bool {
    encode_utf8(s).len() <= u32::MAX
}

/// The canonical encoding of an action.
pub open spec fn spec_encode_action(a: ActionView) -> Seq<u8> {
    match a {
        ActionView::RegisterRestaurant { id, public_key } => (
            seq![0u8] + enc_str(id) + enc_bytes(public_key)
        ),
        ActionView::SubmitReview {
            restaurant_id,
            client,
            review_text,
            zk_proof,
            timestamp,
        } => (
            seq![1u8] + enc_str(restaurant_id) + enc_str(client) + enc_str(review_text)
                + enc_bytes(zk_proof) + spec_u64_to_le_bytes(timestamp)
        ),
    }
}

/// Whether every field of the action fits its length prefix.
pub open spec fn action_ok(a: ActionView) -> bool {
    match a {
        ActionView::RegisterRestaurant { id, public_key } => str_ok(id) && bytes_ok(public_key),
        ActionView::SubmitReview {
            restaurant_id,
            client,
            review_text,
            zk_proof,
            timestamp,
        } => str_ok(restaurant_id) && str_ok(client) && str_ok(review_text) && bytes_ok(zk_proof),
    }
}

/// Whether `b` is the canonical encoding of some action.
pub open spec fn action_decodable(b: Seq<u8>) -> bool {
    exists|av: ActionView| action_ok(av) && b == spec_encode_action(av)
}

/// The action `b` encodes, when there is one.
pub open spec fn spec_decode_action(b: Seq<u8>) -> Option<ActionView> {
    if action_decodable(b) {
        Some(choose|av: ActionView| action_ok(av) && b == spec_encode_action(av))
    } else {
        None
    }
}

/// Relies on `core::str::from_utf8`: it succeeds exactly on valid UTF-8 and
/// returns the text those bytes encode.
#[verifier::external_body]
fn bytes_to_string(b: &Vec<u8>) -> (r: Option<String>)
    ensures
        r is Some <==> valid_utf8(b@),
        r is Some ==> r->0@ == decode_utf8(b@),
{
    match core::str::from_utf8(b.as_slice()) {
        Ok(s) => Some(s.to_owned()),
        Err(_) => None,
    }
}

/// Append `data`, length-prefixed, to `out`; refuse a string that does not
/// fit the prefix.
fn append_len_prefixed(out: &mut Vec<u8>, data: &Vec<u8>) -> (ok: bool)
    ensures
        ok <==> bytes_ok(data@),
        ok ==> final(out)@ == old(out)@ + enc_bytes(data@),
        !ok ==> final(out)@ == old(out)@,
{
    proof {
        lemma_auto_spec_u32_to_from_le_bytes();
    }
    if data.len() > u32::MAX as usize {
        return false;
    }
    let mut len_bytes = u32_to_le_bytes(data.len() as u32);
    out.append(&mut len_bytes);
    let mut copy = slice_to_vec(data.as_slice());
    out.append(&mut copy);
    proof {
        assert(final(out)@ =~= old(out)@ + enc_bytes(data@));
    }
    true
}

/// Append a text field, length-prefixed, to `out`.
fn append_str(out: &mut Vec<u8>, s: &str) -> (ok: bool)
    ensures
        ok <==> str_ok(s@),
        ok ==> final(out)@ == old(out)@ + enc_str(s@),
        !ok ==> final(out)@ == old(out)@,
{
    proof {
        lemma_auto_spec_u32_to_from_le_bytes();
    }
    let bytes = s.as_bytes();
    if bytes.len() > u32::MAX as usize {
        return false;
    }
    let mut len_bytes = u32_to_le_bytes(bytes.len() as u32);
    out.append(&mut len_bytes);
    let mut copy = slice_to_vec(bytes);
    out.append(&mut copy);
    proof {
        assert(final(out)@ =~= old(out)@ + enc_str(s@));
    }
    true
}

/// Read one length-prefixed byte string starting at `i`; succeed exactly
/// when the bytes there are such an encoding, and return its end.
fn read_len_prefixed(b: &[u8], i: usize) -> (r: Option<(Vec<u8>, usize)>)
    requires
        i <= b@.len(),
    ensures
        r is Some ==> ({
            let (v, j) = r->0;
            &&& i < j <= b@.len()
            &&& bytes_ok(v@)
            &&& b@.subrange(i as int, j as int) == enc_bytes(v@)
        }),
        forall|x: Seq<u8>, k: int|
            #![trigger enc_bytes(x), b@.subrange(i as int, k)]
            i <= k <= b@.len() && bytes_ok(x) && b@.subrange(i as int, k) == enc_bytes(x) ==> (
            r is Some && (r->0).0@ == x && (r->0).1 == k),
{
    proof {
        lemma_auto_spec_u32_to_from_le_bytes();
    }
    if b.len() - i < 4 {
        proof {
            assert forall|x: Seq<u8>, k: int|
                i <= k <= b@.len() && bytes_ok(x) && #[trigger] b@.subrange(i as int, k)
                    == #[trigger] enc_bytes(x) implies false by {
                assert(enc_bytes(x).len() == 4 + x.len());
                assert(b@.subrange(i as int, k).len() == k - i);
                assert(k - i == 4 + x.len());
            }
        }
        return None;
    }
    let len_slice = slice_subrange(b, i, i + 4);
    let n = u32_from_le_bytes(len_slice);
    let len = n as usize;
    if b.len() - (i + 4) < len {
        proof {
            assert forall|x: Seq<u8>, k: int|
                i <= k <= b@.len() && bytes_ok(x) && #[trigger] b@.subrange(i as int, k)
                    == #[trigger] enc_bytes(x) implies false by {
                assert(enc_bytes(x).len() == 4 + x.len());
                assert(b@.subrange(i as int, k).len() == k - i);
                assert(k - i == 4 + x.len());
                assert(b@.subrange(i as int, k).subrange(0, 4) =~= b@.subrange(
                    i as int,
                    i + 4,
                ));
                assert(enc_bytes(x).subrange(0, 4) =~= spec_u32_to_le_bytes(x.len() as u32));
                assert(n == x.len() as u32);
            }
        }
        return None;
    }
    let j = i + 4 + len;
    let v = slice_to_vec(slice_subrange(b, i + 4, j));
    proof {
        assert(b@.subrange(i as int, j as int) =~= b@.subrange(i as int, i + 4) + b@.subrange(
            i + 4,
            j as int,
        ));
        assert(b@.subrange(i as int, i + 4).len() == 4);
        assert(spec_u32_to_le_bytes(spec_u32_from_le_bytes(b@.subrange(i as int, i + 4)))
            == b@.subrange(i as int, i + 4));
        assert(v@.len() == len);
        assert(n as usize as u32 == n) by (bit_vector);
        assert(v@.len() as u32 == n);
        assert(spec_u32_to_le_bytes(v@.len() as u32) =~= b@.subrange(i as int, i + 4));
        assert(b@.subrange(i as int, j as int) == enc_bytes(v@));
        assert forall|x: Seq<u8>, k: int|
            i <= k <= b@.len() && bytes_ok(x) && #[trigger] b@.subrange(i as int, k)
                == #[trigger] enc_bytes(x) implies v@ == x && j == k by {
            assert(enc_bytes(x).len() == 4 + x.len());
            assert(b@.subrange(i as int, k).len() == k - i);
            assert(k - i == 4 + x.len());
            assert(b@.subrange(i as int, k).subrange(0, 4) =~= b@.subrange(i as int, i + 4));
            assert(enc_bytes(x).subrange(0, 4) =~= spec_u32_to_le_bytes(x.len() as u32));
            assert(n == x.len() as u32);
            assert(k == j);
            assert(b@.subrange(i as int, k).subrange(4, k - i) =~= b@.subrange(i + 4, k));
            assert(enc_bytes(x).subrange(4, k - i) =~= x);
            assert(v@ =~= x);
        }
    }
    Some((v, j))
}

/// Read one length-prefixed text field starting at `i`; succeed exactly
/// when the bytes there are such an encoding.
fn read_str(b: &[u8], i: usize) -> (r: Option<(String, usize)>)
    requires
        i <= b@.len(),
    ensures
        r is Some ==> ({
            let (s, j) = r->0;
            &&& i < j <= b@.len()
            &&& str_ok(s@)
            &&& b@.subrange(i as int, j as int) == enc_str(s@)
        }),
        forall|t: Seq<char>, k: int|
            #![trigger enc_str(t), b@.subrange(i as int, k)]
            i <= k <= b@.len() && str_ok(t) && b@.subrange(i as int, k) == enc_str(t) ==> (
            r is Some && (r->0).0@ == t && (r->0).1 == k),
{
    match read_len_prefixed(b, i) {
        None => {
            proof {
                assert forall|t: Seq<char>, k: int|
                    i <= k <= b@.len() && str_ok(t) && #[trigger] b@.subrange(i as int, k)
                        == #[trigger] enc_str(t) implies false by {
                    assert(b@.subrange(i as int, k) == enc_bytes(encode_utf8(t)));
                }
            }
            None
        },
        Some((bytes, j)) => {
            match bytes_to_string(&bytes) {
                None => {
                    proof {
                        assert forall|t: Seq<char>, k: int|
                            i <= k <= b@.len() && str_ok(t) && #[trigger] b@.subrange(i as int, k)
                                == #[trigger] enc_str(t) implies false by {
                            assert(b@.subrange(i as int, k) == enc_bytes(encode_utf8(t)));
                            assert(bytes@ == encode_utf8(t));
                            encode_utf8_valid_utf8(t);
                        }
                    }
                    None
                },
                Some(s) => {
                    proof {
                        decode_utf8_encode_utf8(bytes@);
                        assert(encode_utf8(s@) == bytes@);
                        assert(b@.subrange(i as int, j as int) == enc_str(s@));
                        assert forall|t: Seq<char>, k: int|
                            i <= k <= b@.len() && str_ok(t) && #[trigger] b@.subrange(i as int, k)
                                == #[trigger] enc_str(t) implies s@ == t && j == k by {
                            assert(b@.subrange(i as int, k) == enc_bytes(encode_utf8(t)));
                            assert(bytes@ == encode_utf8(t) && j == k);
                            encode_utf8_decode_utf8(t);
                        }
                    }
                    Some((s, j))
                },
            }
        },
    }
}

/// Read a fixed eight-byte little-endian integer starting at `i`.
fn read_u64_at(b: &[u8], i: usize) -> (r: Option<(u64, usize)>)
    requires
        i <= b@.len(),
    ensures
        r is Some ==> ({
            let (x, j) = r->0;
            &&& j == i + 8 <= b@.len()
            &&& b@.subrange(i as int, j as int) == spec_u64_to_le_bytes(x)
        }),
        forall|x: u64, k: int|
            #![trigger spec_u64_to_le_bytes(x), b@.subrange(i as int, k)]
            i <= k <= b@.len() && b@.subrange(i as int, k) == spec_u64_to_le_bytes(x) ==> (
            r is Some && (r->0).0 == x && (r->0).1 == k),
{
    proof {
        lemma_auto_spec_u64_to_from_le_bytes();
    }
    if b.len() - i < 8 {
        return None;
    }
    let x = u64_from_le_bytes(slice_subrange(b, i, i + 8));
    proof {
        assert(spec_u64_to_le_bytes(x) =~= b@.subrange(i as int, i + 8));
        assert forall|y: u64, k: int|
            i <= k <= b@.len() && #[trigger] b@.subrange(i as int, k)
                == #[trigger] spec_u64_to_le_bytes(y) implies x == y && k == i + 8 by {
            assert(k == i + 8);
            assert(b@.subrange(i as int, k) =~= b@.subrange(i as int, i + 8));
        }
    }
    Some((x, i + 8))
}

/// The layout of a registration encoding: tag byte, then the id text, then
/// the public key, with nothing after.
proof fn lemma_register_segments(b: Seq<u8>, id: Seq<char>, pk: Seq<u8>)
    requires
        b == spec_encode_action(ActionView::RegisterRestaurant { id, public_key: pk }),
    ensures
        b.len() == 1 + enc_str(id).len() + enc_bytes(pk).len(),
        b[0] == 0,
        b.subrange(1, 1 + enc_str(id).len() as int) == enc_str(id),
        b.subrange(1 + enc_str(id).len() as int, b.len() as int) == enc_bytes(pk),
{
    let a = enc_str(id);
    let c = enc_bytes(pk);
    assert(b.subrange(1, 1 + a.len() as int) =~= a);
    assert(b.subrange(1 + a.len() as int, b.len() as int) =~= c);
}

/// The layout of a submission encoding: tag byte, then the restaurant id,
/// client, review text, proof bytes and timestamp, with nothing after.
proof fn lemma_submit_segments(
    b: Seq<u8>,
    rid: Seq<char>,
    cl: Seq<char>,
    tx: Seq<char>,
    pf: Seq<u8>,
    ts: u64,
)
    requires
        b == spec_encode_action(
            ActionView::SubmitReview {
                restaurant_id: rid,
                client: cl,
                review_text: tx,
                zk_proof: pf,
                timestamp: ts,
            },
        ),
    ensures
        ({
            let o2 = 1 + enc_str(rid).len() as int;
            let o3 = o2 + enc_str(cl).len() as int;
            let o4 = o3 + enc_str(tx).len() as int;
            let o5 = o4 + enc_bytes(pf).len() as int;
            &&& b.len() == o5 + 8
            &&& b[0] == 1
            &&& b.subrange(1, o2) == enc_str(rid)
            &&& b.subrange(o2, o3) == enc_str(cl)
            &&& b.subrange(o3, o4) == enc_str(tx)
            &&& b.subrange(o4, o5) == enc_bytes(pf)
            &&& b.subrange(o5, b.len() as int) == spec_u64_to_le_bytes(ts)
        }),
{
    lemma_auto_spec_u64_to_from_le_bytes();
    let o2 = 1 + enc_str(rid).len() as int;
    let o3 = o2 + enc_str(cl).len() as int;
    let o4 = o3 + enc_str(tx).len() as int;
    let o5 = o4 + enc_bytes(pf).len() as int;
    assert(b.subrange(1, o2) =~= enc_str(rid));
    assert(b.subrange(o2, o3) =~= enc_str(cl));
    assert(b.subrange(o3, o4) =~= enc_str(tx));
    assert(b.subrange(o4, o5) =~= enc_bytes(pf));
    assert(b.subrange(o5, b.len() as int) =~= spec_u64_to_le_bytes(ts));
}

/// Case analysis over the two encodings: whichever variant `b` encodes, its
/// tag byte and the position of every field segment are fixed.
proof fn lemma_action_cases(b: Seq<u8>, av: ActionView)
    requires
        action_ok(av),
        b == spec_encode_action(av),
    ensures
        match av {
            ActionView::RegisterRestaurant { id, public_key } => ({
                let o2 = 1 + enc_str(id).len() as int;
                &&& b.len() == o2 + enc_bytes(public_key).len()
                &&& b[0] == 0
                &&& b.subrange(1, o2) == enc_str(id)
                &&& b.subrange(o2, b.len() as int) == enc_bytes(public_key)
            }),
            ActionView::SubmitReview {
                restaurant_id,
                client,
                review_text,
                zk_proof,
                timestamp,
            } => ({
                let o2 = 1 + enc_str(restaurant_id).len() as int;
                let o3 = o2 + enc_str(client).len() as int;
                let o4 = o3 + enc_str(review_text).len() as int;
                let o5 = o4 + enc_bytes(zk_proof).len() as int;
                &&& b.len() == o5 + 8
                &&& b[0] == 1
                &&& b.subrange(1, o2) == enc_str(restaurant_id)
                &&& b.subrange(o2, o3) == enc_str(client)
                &&& b.subrange(o3, o4) == enc_str(review_text)
                &&& b.subrange(o4, o5) == enc_bytes(zk_proof)
                &&& b.subrange(o5, b.len() as int) == spec_u64_to_le_bytes(timestamp)
            }),
        },
{
    match av {
        ActionView::RegisterRestaurant { id, public_key } => {
            lemma_register_segments(b, id, public_key);
        },
        ActionView::SubmitReview {
            restaurant_id,
            client,
            review_text,
            zk_proof,
            timestamp,
        } => {
            lemma_submit_segments(b, restaurant_id, client, review_text, zk_proof, timestamp);
        },
    }
}

/// Two length-prefixed byte strings starting one buffer are the same
/// string, and are followed by the same remainder.
proof fn lemma_enc_bytes_prefix(x1: Seq<u8>, x2: Seq<u8>, r1: Seq<u8>, r2: Seq<u8>)
    requires
        bytes_ok(x1),
        bytes_ok(x2),
        enc_bytes(x1) + r1 == enc_bytes(x2) + r2,
    ensures
        x1 == x2,
        r1 == r2,
{
    lemma_auto_spec_u32_to_from_le_bytes();
    let s = enc_bytes(x1) + r1;
    assert(s.subrange(0, 4) =~= spec_u32_to_le_bytes(x1.len() as u32));
    assert(s.subrange(0, 4) =~= spec_u32_to_le_bytes(x2.len() as u32));
    assert(spec_u32_from_le_bytes(spec_u32_to_le_bytes(x1.len() as u32)) == x1.len() as u32);
    assert(spec_u32_from_le_bytes(spec_u32_to_le_bytes(x2.len() as u32)) == x2.len() as u32);
    assert(x1.len() as u32 == x2.len() as u32);
    assert(x1.len() == x2.len());
    assert(x1 =~= s.subrange(4, 4 + x1.len() as int));
    assert(x2 =~= s.subrange(4, 4 + x2.len() as int));
    assert(x1 =~= x2);
    assert(r1 =~= s.subrange(4 + x1.len() as int, s.len() as int));
    assert(r2 =~= s.subrange(4 + x2.len() as int, s.len() as int));
    assert(r1 =~= r2);
}

/// The same, for length-prefixed text fields: UTF-8 encoding is injective.
proof fn lemma_enc_str_prefix(t1: Seq<char>, t2: Seq<char>, r1: Seq<u8>, r2: Seq<u8>)
    requires
        str_ok(t1),
        str_ok(t2),
        enc_str(t1) + r1 == enc_str(t2) + r2,
    ensures
        t1 == t2,
        r1 == r2,
{
    lemma_enc_bytes_prefix(encode_utf8(t1), encode_utf8(t2), r1, r2);
    encode_utf8_decode_utf8(t1);
    encode_utf8_decode_utf8(t2);
}

/// The canonical encoding is injective: two actions with the same encoding
/// are the same action.
pub proof fn lemma_encode_action_injective(a1: ActionView, a2: ActionView)
    requires
        action_ok(a1),
        action_ok(a2),
        spec_encode_action(a1) == spec_encode_action(a2),
    ensures
        a1 == a2,
{
    lemma_auto_spec_u64_to_from_le_bytes();
    let b = spec_encode_action(a1);
    lemma_action_cases(b, a1);
    lemma_action_cases(b, a2);
    let t = b.subrange(1, b.len() as int);
    match (a1, a2) {
        (
            ActionView::RegisterRestaurant { id: id1, public_key: pk1 },
            ActionView::RegisterRestaurant { id: id2, public_key: pk2 },
        ) => {
            assert(t =~= enc_str(id1) + enc_bytes(pk1));
            assert(t =~= enc_str(id2) + enc_bytes(pk2));
            lemma_enc_str_prefix(id1, id2, enc_bytes(pk1), enc_bytes(pk2));
            let none: Seq<u8> = Seq::empty();
            assert(enc_bytes(pk1) + none =~= enc_bytes(pk1));
            assert(enc_bytes(pk2) + none =~= enc_bytes(pk2));
            lemma_enc_bytes_prefix(pk1, pk2, none, none);
        },
        (
            ActionView::SubmitReview {
                restaurant_id: ra, client: ca, review_text: ta, zk_proof: pa, timestamp: sa,
            },
            ActionView::SubmitReview {
                restaurant_id: rb, client: cb, review_text: tb, zk_proof: pb, timestamp: sb,
            },
        ) => {
            let resta = enc_str(ca) + enc_str(ta) + enc_bytes(pa) + spec_u64_to_le_bytes(sa);
            let restb = enc_str(cb) + enc_str(tb) + enc_bytes(pb) + spec_u64_to_le_bytes(sb);
            assert(t =~= enc_str(ra) + resta);
            assert(t =~= enc_str(rb) + restb);
            lemma_enc_str_prefix(ra, rb, resta, restb);
            let resta2 = enc_str(ta) + enc_bytes(pa) + spec_u64_to_le_bytes(sa);
            let restb2 = enc_str(tb) + enc_bytes(pb) + spec_u64_to_le_bytes(sb);
            assert(resta =~= enc_str(ca) + resta2);
            assert(restb =~= enc_str(cb) + restb2);
            lemma_enc_str_prefix(ca, cb, resta2, restb2);
            let resta3 = enc_bytes(pa) + spec_u64_to_le_bytes(sa);
            let restb3 = enc_bytes(pb) + spec_u64_to_le_bytes(sb);
            assert(resta2 =~= enc_str(ta) + resta3);
            assert(restb2 =~= enc_str(tb) + restb3);
            lemma_enc_str_prefix(ta, tb, resta3, restb3);
            lemma_enc_bytes_prefix(pa, pb, spec_u64_to_le_bytes(sa), spec_u64_to_le_bytes(sb));
            assert(spec_u64_from_le_bytes(spec_u64_to_le_bytes(sa)) == sa);
            assert(spec_u64_from_le_bytes(spec_u64_to_le_bytes(sb)) == sb);
        },
        _ => {
            assert(b[0] == 0 && b[0] == 1);
        },
    }
}

/// Round trip: the canonical encoding of any action decodes back to exactly
/// that action.
pub proof fn lemma_action_round_trip(av: ActionView)
    requires
        action_ok(av),
    ensures
        action_decodable(spec_encode_action(av)),
        spec_decode_action(spec_encode_action(av)) == Some(av),
{
    let b = spec_encode_action(av);
    assert(action_ok(av) && b == spec_encode_action(av));
    assert(action_decodable(b));
    let av2 = choose|a: ActionView| action_ok(a) && b == spec_encode_action(a);
    lemma_encode_action_injective(av, av2);
}

impl RestaurantReviewAction {
    /// The canonical byte encoding of this action; refused only when a field
    /// is too long for its four-byte length prefix.
    pub fn to_bytes(&self) -> (r: Option<Vec<u8>>)
        ensures
            r is Some <==> action_ok(self@),
            r is Some ==> r->0@ == spec_encode_action(self@),
    {
        let mut out: Vec<u8> = Vec::new();
        match self {
            RestaurantReviewAction::RegisterRestaurant { id, public_key } => {
                out.push(0u8);
                let ghost p0 = out@;
                if !append_str(&mut out, id.as_str()) {
                    return None;
                }
                if !append_len_prefixed(&mut out, public_key) {
                    return None;
                }
                proof {
                    assert(p0 =~= seq![0u8]);
                    assert(out@ =~= spec_encode_action(self@));
                }
                Some(out)
            },
            RestaurantReviewAction::SubmitReview {
                restaurant_id,
                client,
                review_text,
                zk_proof,
                timestamp,
            } => {
                out.push(1u8);
                let ghost p0 = out@;
                if !append_str(&mut out, restaurant_id.as_str()) {
                    return None;
                }
                if !append_str(&mut out, client.as_str()) {
                    return None;
                }
                if !append_str(&mut out, review_text.as_str()) {
                    return None;
                }
                if !append_len_prefixed(&mut out, zk_proof) {
                    return None;
                }
                let mut ts = u64_to_le_bytes(*timestamp);
                out.append(&mut ts);
                proof {
                    assert(p0 =~= seq![1u8]);
                    assert(out@ =~= spec_encode_action(self@));
                }
                Some(out)
            },
        }
    }

    /// Decode the canonical encoding of an action. Succeeds exactly on the
    /// encodings `to_bytes` produces, and then returns the one action that
    /// encodes to `b`; any other buffer is `MalformedAction`.
    pub fn from_bytes(b: &Vec<u8>) -> (r: Result<RestaurantReviewAction, ContractError>)
        ensures
            r is Ok ==> action_ok(r->Ok_0@) && b@ == spec_encode_action(r->Ok_0@),
            forall|av: ActionView|
                action_ok(av) && b@ == #[trigger] spec_encode_action(av) ==> r is Ok
                    && r->Ok_0@ == av,
            r is Err ==> r->Err_0 == ContractError::MalformedAction,
    {
        let s = b.as_slice();
        if b.len() == 0 {
            proof {
                assert forall|av: ActionView|
                    action_ok(av) && b@ == #[trigger] spec_encode_action(av) implies false by {
                    assert(spec_encode_action(av).len() > 0);
                }
            }
            return Err(ContractError::MalformedAction);
        }
        let tag = *vstd::slice::slice_index_get(s, 0);
        if tag == 0 {
            let (id, j1) = match read_str(s, 1) {
                Some(p) => p,
                None => {
                    proof {
                        assert forall|av: ActionView|
                            action_ok(av) && b@ == #[trigger] spec_encode_action(
                                av,
                            ) implies false by {
                            lemma_action_cases(b@, av);
                        }
                    }
                    return Err(ContractError::MalformedAction);
                },
            };
            let (public_key, j2) = match read_len_prefixed(s, j1) {
                Some(p) => p,
                None => {
                    proof {
                        assert forall|av: ActionView|
                            action_ok(av) && b@ == #[trigger] spec_encode_action(
                                av,
                            ) implies false by {
                            lemma_action_cases(b@, av);
                        }
                    }
                    return Err(ContractError::MalformedAction);
                },
            };
            if j2 != b.len() {
                proof {
                    assert forall|av: ActionView|
                        action_ok(av) && b@ == #[trigger] spec_encode_action(
                            av,
                        ) implies false by {
                        lemma_action_cases(b@, av);
                    }
                }
                return Err(ContractError::MalformedAction);
            }
            let act = RestaurantReviewAction::RegisterRestaurant { id, public_key };
            proof {
                assert(b@ =~= seq![b@[0]] + b@.subrange(1, j1 as int) + b@.subrange(
                    j1 as int,
                    j2 as int,
                ));
                assert(b@ == spec_encode_action(act@));
                assert forall|av: ActionView|
                    action_ok(av) && b@ == #[trigger] spec_encode_action(av) implies act@
                    == av by {
                    lemma_action_cases(b@, av);
                }
            }
            Ok(act)
        } else if tag == 1 {
            let (restaurant_id, j1) = match read_str(s, 1) {
                Some(p) => p,
                None => {
                    proof {
                        assert forall|av: ActionView|
                            action_ok(av) && b@ == #[trigger] spec_encode_action(
                                av,
                            ) implies false by {
                            lemma_action_cases(b@, av);
                        }
                    }
                    return Err(ContractError::MalformedAction);
                },
            };
            let (client, j2) = match read_str(s, j1) {
                Some(p) => p,
                None => {
                    proof {
                        assert forall|av: ActionView|
                            action_ok(av) && b@ == #[trigger] spec_encode_action(
                                av,
                            ) implies false by {
                            lemma_action_cases(b@, av);
                        }
                    }
                    return Err(ContractError::MalformedAction);
                },
            };
            let (review_text, j3) = match read_str(s, j2) {
                Some(p) => p,
                None => {
                    proof {
                        assert forall|av: ActionView|
                            action_ok(av) && b@ == #[trigger] spec_encode_action(
                                av,
                            ) implies false by {
                            lemma_action_cases(b@, av);
                        }
                    }
                    return Err(ContractError::MalformedAction);
                },
            };
            let (zk_proof, j4) = match read_len_prefixed(s, j3) {
                Some(p) => p,
                None => {
                    proof {
                        assert forall|av: ActionView|
                            action_ok(av) && b@ == #[trigger] spec_encode_action(
                                av,
                            ) implies false by {
                            lemma_action_cases(b@, av);
                        }
                    }
                    return Err(ContractError::MalformedAction);
                },
            };
            let (timestamp, j5) = match read_u64_at(s, j4) {
                Some(p) => p,
                None => {
                    proof {
                        assert forall|av: ActionView|
                            action_ok(av) && b@ == #[trigger] spec_encode_action(
                                av,
                            ) implies false by {
                            lemma_action_cases(b@, av);
                        }
                    }
                    return Err(ContractError::MalformedAction);
                },
            };
            if j5 != b.len() {
                    proof {
                        assert forall|av: ActionView|
                            action_ok(av) && b@ == #[trigger] spec_encode_action(
                                av,
                            ) implies false by {
                            lemma_action_cases(b@, av);
                        }
                    }
                return Err(ContractError::MalformedAction);
            }
            let act = RestaurantReviewAction::SubmitReview {
                restaurant_id,
                client,
                review_text,
                zk_proof,
                timestamp,
            };
            proof {
                assert(b@ =~= seq![b@[0]] + b@.subrange(1, j1 as int) + b@.subrange(
                    j1 as int,
                    j2 as int,
                ) + b@.subrange(j2 as int, j3 as int) + b@.subrange(j3 as int, j4 as int)
                    + b@.subrange(j4 as int, j5 as int));
                assert(b@ == spec_encode_action(act@));
                assert forall|av: ActionView|
                    action_ok(av) && b@ == #[trigger] spec_encode_action(av) implies act@
                    == av by {
                    lemma_action_cases(b@, av);
                }
            }
            Ok(act)
        } else {
            proof {
                assert forall|av: ActionView|
                    action_ok(av) && b@ == #[trigger] spec_encode_action(av) implies false by {
                    assert(spec_encode_action(av)[0] == 0 || spec_encode_action(av)[0] == 1);
                }
            }
            Err(ContractError::MalformedAction)
        }
    }
}


/// One registry entry: the id text, then the public key.
pub open spec fn enc_rest_entry(e: (Seq<char>, Seq<u8>)) -> Seq<u8> {
    enc_str(e.0) + enc_bytes(e.1)
}

/// Whether a registry entry fits its length prefixes.
pub open spec fn rest_entry_ok(e: (Seq<char>, Seq<u8>)) -> bool {
    str_ok(e.0) && bytes_ok(e.1)
}

/// One review record: client, text, proof bytes, timestamp.
pub open spec fn enc_review(rv: ReviewView) -> Seq<u8> {
    enc_str(rv.client) + enc_str(rv.review_text) + enc_bytes(rv.zk_proof)
        + spec_u64_to_le_bytes(rv.timestamp)
}

/// Whether a review fits its length prefixes.
pub open spec fn review_ok(rv: ReviewView) -> bool {
    str_ok(rv.client) && str_ok(rv.review_text) && bytes_ok(rv.zk_proof)
}

/// One review log entry: the restaurant id, then the review.
pub open spec fn enc_log_entry(e: (Seq<char>, ReviewView)) -> Seq<u8> {
    enc_str(e.0) + enc_review(e.1)
}

/// Whether a log entry fits its length prefixes.
pub open spec fn log_entry_ok(e: (Seq<char>, ReviewView)) -> bool {
    str_ok(e.0) && review_ok(e.1)
}

/// The concatenation of `f` applied to each element of `s`, in order.
pub open spec fn enc_list<A>(s: Seq<A>, f: spec_fn(A) -> Seq<u8>) -> Seq<u8>
    decreases s.len(),
{
    if s.len() == 0 {
        Seq::empty()
    } else {
        f(s[0]) + enc_list(s.drop_first(), f)
    }
}

/// The registry entry encoder, as a function value.
pub open spec fn rest_enc() -> spec_fn((Seq<char>, Seq<u8>)) -> Seq<u8> {
    |e: (Seq<char>, Seq<u8>)| enc_rest_entry(e)
}

/// The log entry encoder, as a function value.
pub open spec fn log_enc() -> spec_fn((Seq<char>, ReviewView)) -> Seq<u8> {
    |e: (Seq<char>, ReviewView)| enc_log_entry(e)
}

/// The image of concrete registry entries in the state's view.
pub open spec fn rests_view(v: Seq<(String, Restaurant)>) -> Seq<(Seq<char>, Seq<u8>)> {
    Seq::new(v.len(), |i: int| (v[i].0@, v[i].1.public_key@))
}

/// The image of concrete log entries in the state's view.
pub open spec fn logs_view(v: Seq<(String, Review)>) -> Seq<(Seq<char>, ReviewView)> {
    Seq::new(v.len(), |i: int| (v[i].0@, v[i].1@))
}

/// Whether every part of the state fits its length prefixes and counts.
pub open spec fn state_ok(v: StateView) -> bool {
    &&& v.restaurants.len() <= u32::MAX
    &&& v.reviews.len() <= u32::MAX
    &&& forall|i: int| 0 <= i < v.restaurants.len() ==> rest_entry_ok(#[trigger] v.restaurants[i])
    &&& forall|i: int| 0 <= i < v.reviews.len() ==> log_entry_ok(#[trigger] v.reviews[i])
}

/// The canonical encoding of a state: the registry, counted, then the
/// review log, counted. This byte sequence is also the state's digest.
pub open spec fn spec_encode_state(v: StateView) -> Seq<u8> {
    spec_u32_to_le_bytes(v.restaurants.len() as u32) + enc_list(v.restaurants, rest_enc())
        + spec_u32_to_le_bytes(v.reviews.len() as u32) + enc_list(v.reviews, log_enc())
}

/// Whether `b` is the canonical encoding of some well-formed state.
pub open spec fn state_decodable(b: Seq<u8>) -> bool {
    exists|sv: StateView| state_ok(sv) && state_wf(sv) && b == spec_encode_state(sv)
}

/// The well-formed state `b` encodes, when there is one.
pub open spec fn spec_decode_state(b: Seq<u8>) -> Option<StateView> {
    if state_decodable(b) {
        Some(choose|sv: StateView| state_ok(sv) && state_wf(sv) && b == spec_encode_state(sv))
    } else {
        None
    }
}

/// Read a fixed four-byte little-endian count starting at `i`.
fn read_u32_at(b: &[u8], i: usize) -> (r: Option<(u32, usize)>)
    requires
        i <= b@.len(),
    ensures
        r is Some ==> ({
            let (x, j) = r->0;
            &&& j == i + 4 <= b@.len()
            &&& b@.subrange(i as int, j as int) == spec_u32_to_le_bytes(x)
        }),
        forall|x: u32, k: int|
            #![trigger spec_u32_to_le_bytes(x), b@.subrange(i as int, k)]
            i <= k <= b@.len() && b@.subrange(i as int, k) == spec_u32_to_le_bytes(x) ==> (
            r is Some && (r->0).0 == x && (r->0).1 == k),
{
    proof {
        lemma_auto_spec_u32_to_from_le_bytes();
    }
    if b.len() - i < 4 {
        proof {
            assert forall|y: u32, k: int|
                i <= k <= b@.len() && #[trigger] b@.subrange(i as int, k)
                    == #[trigger] spec_u32_to_le_bytes(y) implies false by {
                assert(spec_u32_to_le_bytes(y).len() == 4);
                assert(b@.subrange(i as int, k).len() == k - i);
            }
        }
        return None;
    }
    let x = u32_from_le_bytes(slice_subrange(b, i, i + 4));
    proof {
        assert(spec_u32_to_le_bytes(x) =~= b@.subrange(i as int, i + 4));
        assert forall|y: u32, k: int|
            i <= k <= b@.len() && #[trigger] b@.subrange(i as int, k)
                == #[trigger] spec_u32_to_le_bytes(y) implies x == y && k == i + 4 by {
            assert(spec_u32_to_le_bytes(y).len() == 4);
            assert(b@.subrange(i as int, k).len() == k - i);
            assert(k == i + 4);
            assert(b@.subrange(i as int, k) =~= b@.subrange(i as int, i + 4));
        }
    }
    Some((x, i + 4))
}

/// The layout of an encoded registry entry within a larger buffer.
proof fn lemma_rest_entry_segments(b: Seq<u8>, i: int, k: int, e: (Seq<char>, Seq<u8>))
    requires
        0 <= i <= k <= b.len(),
        b.subrange(i, k) == enc_rest_entry(e),
    ensures
        ({
            let o1 = i + enc_str(e.0).len() as int;
            &&& k == o1 + enc_bytes(e.1).len()
            &&& b.subrange(i, o1) == enc_str(e.0)
            &&& b.subrange(o1, k) == enc_bytes(e.1)
        }),
{
    let sub = b.subrange(i, k);
    let la: int = enc_str(e.0).len() as int;
    assert(sub.len() == k - i);
    assert(b.subrange(i, i + la) =~= sub.subrange(0, la));
    assert(sub.subrange(0, la) =~= enc_str(e.0));
    assert(b.subrange(i + la, k) =~= sub.subrange(la, k - i));
    assert(sub.subrange(la, k - i) =~= enc_bytes(e.1));
}

/// The layout of an encoded review log entry within a larger buffer.
proof fn lemma_log_entry_segments(b: Seq<u8>, i: int, k: int, e: (Seq<char>, ReviewView))
    requires
        0 <= i <= k <= b.len(),
        b.subrange(i, k) == enc_log_entry(e),
    ensures
        ({
            let o1 = i + enc_str(e.0).len() as int;
            let o2 = o1 + enc_str(e.1.client).len() as int;
            let o3 = o2 + enc_str(e.1.review_text).len() as int;
            let o4 = o3 + enc_bytes(e.1.zk_proof).len() as int;
            &&& k == o4 + 8
            &&& b.subrange(i, o1) == enc_str(e.0)
            &&& b.subrange(o1, o2) == enc_str(e.1.client)
            &&& b.subrange(o2, o3) == enc_str(e.1.review_text)
            &&& b.subrange(o3, o4) == enc_bytes(e.1.zk_proof)
            &&& b.subrange(o4, k) == spec_u64_to_le_bytes(e.1.timestamp)
        }),
{
    lemma_auto_spec_u64_to_from_le_bytes();
    let sub = b.subrange(i, k);
    let o1 = i + enc_str(e.0).len() as int;
    let o2 = o1 + enc_str(e.1.client).len() as int;
    let o3 = o2 + enc_str(e.1.review_text).len() as int;
    let o4 = o3 + enc_bytes(e.1.zk_proof).len() as int;
    assert(sub.len() == k - i);
    assert(b.subrange(i, o1) =~= sub.subrange(0, o1 - i));
    assert(sub.subrange(0, o1 - i) =~= enc_str(e.0));
    assert(b.subrange(o1, o2) =~= sub.subrange(o1 - i, o2 - i));
    assert(sub.subrange(o1 - i, o2 - i) =~= enc_str(e.1.client));
    assert(b.subrange(o2, o3) =~= sub.subrange(o2 - i, o3 - i));
    assert(sub.subrange(o2 - i, o3 - i) =~= enc_str(e.1.review_text));
    assert(b.subrange(o3, o4) =~= sub.subrange(o3 - i, o4 - i));
    assert(sub.subrange(o3 - i, o4 - i) =~= enc_bytes(e.1.zk_proof));
    assert(b.subrange(o4, k) =~= sub.subrange(o4 - i, k - i));
    assert(sub.subrange(o4 - i, k - i) =~= spec_u64_to_le_bytes(e.1.timestamp));
}

/// Read `count` registry entries starting at `i`; succeed exactly when the
/// bytes there encode such a list.
fn read_rest_entries(b: &[u8], i: usize, count: usize) -> (r: Option<
    (Vec<(String, Restaurant)>, usize),
>)
    requires
        i <= b@.len(),
    ensures
        r is Some ==> ({
            let (v, j) = r->0;
            &&& i <= j <= b@.len()
            &&& v@.len() == count
            &&& (forall|m: int|
                0 <= m < v@.len() ==> rest_entry_ok(#[trigger] rests_view(v@)[m]))
            &&& b@.subrange(i as int, j as int) == enc_list(rests_view(v@), rest_enc())
        }),
        forall|s: Seq<(Seq<char>, Seq<u8>)>, k: int|
            #![trigger enc_list(s, rest_enc()), b@.subrange(i as int, k)]
            s.len() == count && (forall|m: int| 0 <= m < s.len() ==> rest_entry_ok(
                #[trigger] s[m],
            )) && i <= k <= b@.len() && b@.subrange(i as int, k) == enc_list(s, rest_enc())
                ==> (r is Some && rests_view((r->0).0@) == s && (r->0).1 == k),
    decreases count,
{
    if count == 0 {
        let v: Vec<(String, Restaurant)> = Vec::new();
        proof {
            assert(rests_view(v@) =~= Seq::<(Seq<char>, Seq<u8>)>::empty());
            assert(b@.subrange(i as int, i as int) =~= Seq::<u8>::empty());
            assert forall|s: Seq<(Seq<char>, Seq<u8>)>, k: int|
                s.len() == 0 && i <= k <= b@.len() && #[trigger] b@.subrange(i as int, k)
                    == #[trigger] enc_list(s, rest_enc()) implies rests_view(v@) == s && i
                == k by {
                assert(enc_list(s, rest_enc()).len() == 0);
                assert(k == i);
                assert(rests_view(v@) =~= s);
            }
        }
        return Some((v, i));
    }
    let (id, j1) = match read_str(b, i) {
        Some(p) => p,
        None => {
            proof {
                rest_entries_hyp_false(b@, i as int);
            }
            return None;
        },
    };
    let (pk, j2) = match read_len_prefixed(b, j1) {
        Some(p) => p,
        None => {
            proof {
                rest_entries_hyp_false(b@, i as int);
            }
            return None;
        },
    };
    match read_rest_entries(b, j2, count - 1) {
        None => {
            proof {
                rest_entries_hyp_false(b@, i as int);
            }
            None
        },
        Some((mut v, j)) => {
            let ghost tailview = rests_view(v@);
            v.insert(0, (id, Restaurant { public_key: pk }));
            proof {
                assert(rests_view(v@) =~= seq![(id@, pk@)] + tailview);
                assert(rests_view(v@).drop_first() =~= tailview);
                assert(b@.subrange(i as int, j as int) =~= b@.subrange(i as int, j1 as int)
                    + b@.subrange(j1 as int, j2 as int) + b@.subrange(j2 as int, j as int));
                assert(enc_rest_entry(rests_view(v@)[0]) == enc_str(id@) + enc_bytes(pk@));
                assert(b@.subrange(i as int, j as int) =~= enc_list(rests_view(v@), rest_enc()));
                assert forall|s: Seq<(Seq<char>, Seq<u8>)>, k: int|
                    s.len() == count && (forall|m: int| 0 <= m < s.len() ==> rest_entry_ok(
                        #[trigger] s[m],
                    )) && i <= k <= b@.len() && #[trigger] b@.subrange(i as int, k)
                        == #[trigger] enc_list(s, rest_enc()) implies rests_view(v@) == s && j
                    == k by {
                    rest_entries_hyp_heads(b@, i as int, s, k);
                    assert(rests_view(v@) =~= s);
                }
            }
            Some((v, j))
        },
    }
}

/// Under the hypothesis that a registry entry list with at least one entry
/// is encoded at `i`, pin down where its head entry's segments lie.
proof fn rest_entries_hyp_heads(b: Seq<u8>, i: int, s: Seq<(Seq<char>, Seq<u8>)>, k: int)
    requires
        0 <= i <= k <= b.len(),
        s.len() > 0,
        forall|m: int| 0 <= m < s.len() ==> rest_entry_ok(#[trigger] s[m]),
        b.subrange(i, k) == enc_list(s, rest_enc()),
    ensures
        ({
            let e = s[0];
            let o1 = i + enc_str(e.0).len() as int;
            let o2 = o1 + enc_bytes(e.1).len() as int;
            &&& o2 <= k
            &&& b.subrange(i, o1) == enc_str(e.0)
            &&& b.subrange(o1, o2) == enc_bytes(e.1)
            &&& b.subrange(o2, k) == enc_list(s.drop_first(), rest_enc())
            &&& forall|m: int|
                0 <= m < s.drop_first().len() ==> rest_entry_ok(#[trigger] s.drop_first()[m])
        }),
{
    let e = s[0];
    let o1 = i + enc_str(e.0).len() as int;
    let o2 = o1 + enc_bytes(e.1).len() as int;
    let sub = b.subrange(i, k);
    assert(enc_list(s, rest_enc()) == enc_rest_entry(e) + enc_list(s.drop_first(), rest_enc()));
    assert(sub.len() == k - i);
    assert(b.subrange(i, o2) =~= sub.subrange(0, o2 - i));
    assert(sub.subrange(0, o2 - i) =~= enc_rest_entry(e));
    lemma_rest_entry_segments(b, i, o2, e);
    assert(b.subrange(o2, k) =~= sub.subrange(o2 - i, k - i));
    assert(sub.subrange(o2 - i, k - i) =~= enc_list(s.drop_first(), rest_enc()));
}

/// No registry entry list hypothesis can hold where one of the reads of the
/// head entry, or of the tail, has failed; each caller derives the needed
/// contradiction from this decomposition.
proof fn rest_entries_hyp_false(b: Seq<u8>, i: int)
    requires
        0 <= i <= b.len(),
    ensures
        forall|s: Seq<(Seq<char>, Seq<u8>)>, k: int|
            #![trigger enc_list(s, rest_enc()), b.subrange(i, k)]
            s.len() > 0 && (forall|m: int| 0 <= m < s.len() ==> rest_entry_ok(#[trigger] s[m]))
                && i <= k <= b.len() && b.subrange(i, k) == enc_list(s, rest_enc())
                ==> rest_entries_hyp_holds(b, i, s, k),
{
    assert forall|s: Seq<(Seq<char>, Seq<u8>)>, k: int|
        s.len() > 0 && (forall|m: int| 0 <= m < s.len() ==> rest_entry_ok(#[trigger] s[m])) && i
            <= k <= b.len() && #[trigger] b.subrange(i, k) == #[trigger] enc_list(
            s,
            rest_enc(),
        ) implies rest_entries_hyp_holds(b, i, s, k) by {
        rest_entries_hyp_heads(b, i, s, k);
    }
}

/// The decomposition facts for a non-empty encoded registry entry list.
spec fn rest_entries_hyp_holds(
    b: Seq<u8>,
    i: int,
    s: Seq<(Seq<char>, Seq<u8>)>,
    k: int,
) -> bool {
    let e = s[0];
    let o1 = i + enc_str(e.0).len() as int;
    let o2 = o1 + enc_bytes(e.1).len() as int;
    &&& o2 <= k
    &&& b.subrange(i, o1) == enc_str(e.0)
    &&& b.subrange(o1, o2) == enc_bytes(e.1)
    &&& b.subrange(o2, k) == enc_list(s.drop_first(), rest_enc())
    &&& forall|m: int|
        0 <= m < s.drop_first().len() ==> rest_entry_ok(#[trigger] s.drop_first()[m])
}


/// The decomposition facts for a non-empty encoded review log entry list.
spec fn log_entries_hyp_holds(
    b: Seq<u8>,
    i: int,
    s: Seq<(Seq<char>, ReviewView)>,
    k: int,
) -> bool {
    let e = s[0];
    let o1 = i + enc_str(e.0).len() as int;
    let o2 = o1 + enc_str(e.1.client).len() as int;
    let o3 = o2 + enc_str(e.1.review_text).len() as int;
    let o4 = o3 + enc_bytes(e.1.zk_proof).len() as int;
    let o5 = o4 + 8;
    &&& o5 <= k
    &&& b.subrange(i, o1) == enc_str(e.0)
    &&& b.subrange(o1, o2) == enc_str(e.1.client)
    &&& b.subrange(o2, o3) == enc_str(e.1.review_text)
    &&& b.subrange(o3, o4) == enc_bytes(e.1.zk_proof)
    &&& b.subrange(o4, o5) == spec_u64_to_le_bytes(e.1.timestamp)
    &&& b.subrange(o5, k) == enc_list(s.drop_first(), log_enc())
    &&& forall|m: int|
        0 <= m < s.drop_first().len() ==> log_entry_ok(#[trigger] s.drop_first()[m])
}

/// Under the hypothesis that a review log entry list with at least one
/// entry is encoded at `i`, pin down where its head entry's segments lie.
proof fn log_entries_hyp_heads(b: Seq<u8>, i: int, s: Seq<(Seq<char>, ReviewView)>, k: int)
    requires
        0 <= i <= k <= b.len(),
        s.len() > 0,
        forall|m: int| 0 <= m < s.len() ==> log_entry_ok(#[trigger] s[m]),
        b.subrange(i, k) == enc_list(s, log_enc()),
    ensures
        log_entries_hyp_holds(b, i, s, k),
{
    lemma_auto_spec_u32_to_from_le_bytes();
    lemma_auto_spec_u64_to_from_le_bytes();
    let e = s[0];
    let o1 = i + enc_str(e.0).len() as int;
    let o2 = o1 + enc_str(e.1.client).len() as int;
    let o3 = o2 + enc_str(e.1.review_text).len() as int;
    let o4 = o3 + enc_bytes(e.1.zk_proof).len() as int;
    let o5 = o4 + 8;
    let sub = b.subrange(i, k);
    assert(enc_list(s, log_enc()) == enc_log_entry(e) + enc_list(s.drop_first(), log_enc()));
    assert(enc_log_entry(e).len() == o5 - i);
    assert(sub.len() == k - i);
    assert(b.subrange(i, o5) =~= sub.subrange(0, o5 - i));
    assert(sub.subrange(0, o5 - i) =~= enc_log_entry(e));
    lemma_log_entry_segments(b, i, o5, e);
    assert(b.subrange(o5, k) =~= sub.subrange(o5 - i, k - i));
    assert(sub.subrange(o5 - i, k - i) =~= enc_list(s.drop_first(), log_enc()));
}

/// The hypothesis-decomposition of an encoded log entry list, exposed at
/// every failure and success point of the reader below.
proof fn log_entries_hyp_false(b: Seq<u8>, i: int)
    requires
        0 <= i <= b.len(),
    ensures
        forall|s: Seq<(Seq<char>, ReviewView)>, k: int|
            #![trigger enc_list(s, log_enc()), b.subrange(i, k)]
            s.len() > 0 && (forall|m: int| 0 <= m < s.len() ==> log_entry_ok(#[trigger] s[m]))
                && i <= k <= b.len() && b.subrange(i, k) == enc_list(s, log_enc())
                ==> log_entries_hyp_holds(b, i, s, k),
{
    assert forall|s: Seq<(Seq<char>, ReviewView)>, k: int|
        s.len() > 0 && (forall|m: int| 0 <= m < s.len() ==> log_entry_ok(#[trigger] s[m])) && i
            <= k <= b.len() && #[trigger] b.subrange(i, k) == #[trigger] enc_list(
            s,
            log_enc(),
        ) implies log_entries_hyp_holds(b, i, s, k) by {
        log_entries_hyp_heads(b, i, s, k);
    }
}

/// Read `count` review log entries starting at `i`; succeed exactly when
/// the bytes there encode such a list.
#[verifier::rlimit(80)]
fn read_log_entries(b: &[u8], i: usize, count: usize) -> (r: Option<
    (Vec<(String, Review)>, usize),
>)
    requires
        i <= b@.len(),
    ensures
        r is Some ==> ({
            let (v, j) = r->0;
            &&& i <= j <= b@.len()
            &&& v@.len() == count
            &&& (forall|m: int| 0 <= m < v@.len() ==> log_entry_ok(#[trigger] logs_view(v@)[m]))
            &&& b@.subrange(i as int, j as int) == enc_list(logs_view(v@), log_enc())
        }),
        forall|s: Seq<(Seq<char>, ReviewView)>, k: int|
            #![trigger enc_list(s, log_enc()), b@.subrange(i as int, k)]
            s.len() == count && (forall|m: int| 0 <= m < s.len() ==> log_entry_ok(
                #[trigger] s[m],
            )) && i <= k <= b@.len() && b@.subrange(i as int, k) == enc_list(s, log_enc()) ==> (
            r is Some && logs_view((r->0).0@) == s && (r->0).1 == k),
    decreases count,
{
    if count == 0 {
        let v: Vec<(String, Review)> = Vec::new();
        proof {
            assert(logs_view(v@) =~= Seq::<(Seq<char>, ReviewView)>::empty());
            assert(b@.subrange(i as int, i as int) =~= Seq::<u8>::empty());
            assert forall|s: Seq<(Seq<char>, ReviewView)>, k: int|
                s.len() == 0 && i <= k <= b@.len() && #[trigger] b@.subrange(i as int, k)
                    == #[trigger] enc_list(s, log_enc()) implies logs_view(v@) == s && i
                == k by {
                assert(enc_list(s, log_enc()).len() == 0);
                assert(k == i);
                assert(logs_view(v@) =~= s);
            }
        }
        return Some((v, i));
    }
    let (id, j1) = match read_str(b, i) {
        Some(p) => p,
        None => {
            proof {
                log_entries_hyp_false(b@, i as int);
            }
            return None;
        },
    };
    let (client, j2) = match read_str(b, j1) {
        Some(p) => p,
        None => {
            proof {
                log_entries_hyp_false(b@, i as int);
            }
            return None;
        },
    };
    let (review_text, j3) = match read_str(b, j2) {
        Some(p) => p,
        None => {
            proof {
                log_entries_hyp_false(b@, i as int);
            }
            return None;
        },
    };
    let (zk_proof, j4) = match read_len_prefixed(b, j3) {
        Some(p) => p,
        None => {
            proof {
                log_entries_hyp_false(b@, i as int);
            }
            return None;
        },
    };
    let (timestamp, j5) = match read_u64_at(b, j4) {
        Some(p) => p,
        None => {
            proof {
                log_entries_hyp_false(b@, i as int);
            }
            return None;
        },
    };
    match read_log_entries(b, j5, count - 1) {
        None => {
            proof {
                log_entries_hyp_false(b@, i as int);
            }
            None
        },
        Some((mut v, j)) => {
            let ghost tailview = logs_view(v@);
            let review = Review { client, review_text, zk_proof, timestamp };
            let ghost rv = review@;
            v.insert(0, (id, review));
            proof {
                assert(logs_view(v@) =~= seq![(id@, rv)] + tailview);
                assert(logs_view(v@).drop_first() =~= tailview);
                assert(b@.subrange(i as int, j as int) =~= b@.subrange(i as int, j1 as int)
                    + b@.subrange(j1 as int, j2 as int) + b@.subrange(j2 as int, j3 as int)
                    + b@.subrange(j3 as int, j4 as int) + b@.subrange(j4 as int, j5 as int)
                    + b@.subrange(j5 as int, j as int));
                assert(enc_log_entry(logs_view(v@)[0]) == enc_str(id@) + enc_review(rv));
                assert(b@.subrange(i as int, j as int) =~= enc_list(logs_view(v@), log_enc()));
                assert forall|s: Seq<(Seq<char>, ReviewView)>, k: int|
                    s.len() == count && (forall|m: int| 0 <= m < s.len() ==> log_entry_ok(
                        #[trigger] s[m],
                    )) && i <= k <= b@.len() && #[trigger] b@.subrange(i as int, k)
                        == #[trigger] enc_list(s, log_enc()) implies logs_view(v@) == s && j
                    == k by {
                    log_entries_hyp_heads(b@, i as int, s, k);
                    assert(logs_view(v@) =~= s);
                }
            }
            Some((v, j))
        },
    }
}

/// Whether the keys of the given registry entries are pairwise distinct.
fn check_unique(v: &Vec<(String, Restaurant)>) -> (r: bool)
    ensures
        r == unique_keys(rests_view(v@)),
{
    let ghost w = rests_view(v@);
    let mut i: usize = 0;
    while i < v.len()
        invariant
            0 <= i <= v@.len(),
            w == rests_view(v@),
            w.len() == v@.len(),
            forall|p: int, q: int| 0 <= p < q < w.len() && p < i ==> w[p].0 != w[q].0,
        decreases v.len() - i,
    {
        let mut j: usize = i + 1;
        while j < v.len()
            invariant
                0 <= i < j <= v@.len() + 1,
                j >= i + 1,
                w == rests_view(v@),
                w.len() == v@.len(),
                forall|q: int| i < q < j ==> w[i as int].0 != w[q].0,
            decreases v.len() - j,
        {
            if v[i].0 == v[j].0 {
                proof {
                    assert(w[i as int].0 == w[j as int].0);
                    assert(!unique_keys(w));
                }
                return false;
            }
            j = j + 1;
        }
        i = i + 1;
    }
    true
}

/// The layout of an encoded state: registry count, registry entries, log
/// count, log entries.
proof fn lemma_state_segments(b: Seq<u8>, sv: StateView)
    requires
        state_ok(sv),
        b == spec_encode_state(sv),
    ensures
        ({
            let l1 = enc_list(sv.restaurants, rest_enc()).len() as int;
            let l2 = enc_list(sv.reviews, log_enc()).len() as int;
            &&& b.len() == 8 + l1 + l2
            &&& b.subrange(0, 4) == spec_u32_to_le_bytes(sv.restaurants.len() as u32)
            &&& b.subrange(4, 4 + l1) == enc_list(sv.restaurants, rest_enc())
            &&& b.subrange(4 + l1, 8 + l1) == spec_u32_to_le_bytes(sv.reviews.len() as u32)
            &&& b.subrange(8 + l1, b.len() as int) == enc_list(sv.reviews, log_enc())
        }),
{
    lemma_auto_spec_u32_to_from_le_bytes();
    let l1 = enc_list(sv.restaurants, rest_enc()).len() as int;
    let l2 = enc_list(sv.reviews, log_enc()).len() as int;
    assert(b.subrange(0, 4) =~= spec_u32_to_le_bytes(sv.restaurants.len() as u32));
    assert(b.subrange(4, 4 + l1) =~= enc_list(sv.restaurants, rest_enc()));
    assert(b.subrange(4 + l1, 8 + l1) =~= spec_u32_to_le_bytes(sv.reviews.len() as u32));
    assert(b.subrange(8 + l1, b.len() as int) =~= enc_list(sv.reviews, log_enc()));
}

/// One encoded element more: encoding a list one longer appends that
/// element's encoding.
proof fn lemma_enc_list_snoc<A>(s: Seq<A>, f: spec_fn(A) -> Seq<u8>, i: int)
    requires
        0 <= i < s.len(),
    ensures
        enc_list(s.take(i + 1), f) == enc_list(s.take(i), f) + f(s[i]),
    decreases i,
{
    if i == 0 {
        assert(s.take(1) =~= seq![s[0]]);
        assert(seq![s[0]].drop_first() =~= Seq::<A>::empty());
        assert(enc_list(Seq::<A>::empty(), f) == Seq::<u8>::empty());
        assert(enc_list(s.take(1), f) == f(s.take(1)[0]) + enc_list(s.take(1).drop_first(), f));
        assert(f(s[0]) + Seq::<u8>::empty() =~= f(s[0]));
        assert(enc_list(s.take(1), f) =~= f(s[0]));
        assert(enc_list(s.take(0), f) + f(s[0]) =~= f(s[0]));
    } else {
        let t = s.drop_first();
        lemma_enc_list_snoc(t, f, i - 1);
        assert(s.take(i + 1).drop_first() =~= t.take(i));
        assert(s.take(i).drop_first() =~= t.take(i - 1));
        assert(s.take(i + 1)[0] == s[0]);
        assert(s.take(i)[0] == s[0]);
        assert(t =~= s.subrange(1, s.len() as int));
        assert(t[i - 1] == s.subrange(1, s.len() as int)[i - 1]);
        assert(t[i - 1] == s[i]);
        assert(enc_list(s.take(i + 1), f) =~= enc_list(s.take(i), f) + f(s[i]));
    }
}

impl RestaurantReview {
    /// The canonical byte encoding of the whole state. This byte sequence
    /// is the state's digest: it is a function of the state alone, so two
    /// calls on equal states always agree. Refused only when a field or a
    /// count does not fit its four-byte prefix.
    #[verifier::rlimit(80)]
    pub fn as_bytes(&self) -> (r: Option<Vec<u8>>)
        ensures
            r is Some <==> state_ok(self@),
            r is Some ==> (r->0)@ == spec_encode_state(self@),
    {
        let rests = self.entries();
        let logs = self.log();
        proof {
            assert(self@.restaurants =~= rests_view(rests@));
            assert(self@.reviews =~= logs_view(logs@));
        }
        if rests.len() > u32::MAX as usize {
            return None;
        }
        if logs.len() > u32::MAX as usize {
            return None;
        }
        let mut out = u32_to_le_bytes(rests.len() as u32);
        let ghost head1 = out@;
        let mut i: usize = 0;
        proof {
            assert(self@.restaurants.take(0) =~= Seq::<(Seq<char>, Seq<u8>)>::empty());
            assert(out@ =~= head1 + enc_list(self@.restaurants.take(0), rest_enc()));
        }
        while i < rests.len()
            invariant
                0 <= i <= rests@.len(),
                rests@.len() == self@.restaurants.len() <= u32::MAX,
                self@.restaurants =~= rests_view(rests@),
                head1 == spec_u32_to_le_bytes(self@.restaurants.len() as u32),
                out@ == head1 + enc_list(self@.restaurants.take(i as int), rest_enc()),
                forall|m: int|
                    0 <= m < i ==> rest_entry_ok(#[trigger] self@.restaurants[m]),
            decreases rests.len() - i,
        {
            let ok1 = append_str(&mut out, rests[i].0.as_str());
            if !ok1 {
                proof {
                    assert(!rest_entry_ok(self@.restaurants[i as int]));
                }
                return None;
            }
            let ok2 = append_len_prefixed(&mut out, &rests[i].1.public_key);
            if !ok2 {
                proof {
                    assert(!rest_entry_ok(self@.restaurants[i as int]));
                }
                return None;
            }
            proof {
                lemma_enc_list_snoc(self@.restaurants, rest_enc(), i as int);
                assert(enc_rest_entry(self@.restaurants[i as int]) == enc_str(rests@[i as int].0@)
                    + enc_bytes(rests@[i as int].1.public_key@));
                assert(out@ =~= head1 + enc_list(self@.restaurants.take(i + 1), rest_enc()));
            }
            i = i + 1;
        }
        proof {
            assert(self@.restaurants.take(self@.restaurants.len() as int) =~= self@.restaurants);
        }
        let mut head2 = u32_to_le_bytes(logs.len() as u32);
        let ghost mid = out@ + head2@;
        out.append(&mut head2);
        let mut i2: usize = 0;
        proof {
            assert(self@.reviews.take(0) =~= Seq::<(Seq<char>, ReviewView)>::empty());
            assert(out@ =~= mid + enc_list(self@.reviews.take(0), log_enc()));
        }
        while i2 < logs.len()
            invariant
                0 <= i2 <= logs@.len(),
                logs@.len() == self@.reviews.len() <= u32::MAX,
                self@.reviews =~= logs_view(logs@),
                out@ == mid + enc_list(self@.reviews.take(i2 as int), log_enc()),
                forall|m: int| 0 <= m < i2 ==> log_entry_ok(#[trigger] self@.reviews[m]),
            decreases logs.len() - i2,
        {
            let ok1 = append_str(&mut out, logs[i2].0.as_str());
            if !ok1 {
                proof {
                    assert(!log_entry_ok(self@.reviews[i2 as int]));
                }
                return None;
            }
            let ok2 = append_str(&mut out, logs[i2].1.client.as_str());
            if !ok2 {
                proof {
                    assert(!log_entry_ok(self@.reviews[i2 as int]));
                }
                return None;
            }
            let ok3 = append_str(&mut out, logs[i2].1.review_text.as_str());
            if !ok3 {
                proof {
                    assert(!log_entry_ok(self@.reviews[i2 as int]));
                }
                return None;
            }
            let ok4 = append_len_prefixed(&mut out, &logs[i2].1.zk_proof);
            if !ok4 {
                proof {
                    assert(!log_entry_ok(self@.reviews[i2 as int]));
                }
                return None;
            }
            let mut ts_bytes = u64_to_le_bytes(logs[i2].1.timestamp);
            out.append(&mut ts_bytes);
            proof {
                lemma_enc_list_snoc(self@.reviews, log_enc(), i2 as int);
                assert(enc_log_entry(self@.reviews[i2 as int]) == enc_str(logs@[i2 as int].0@)
                    + enc_review(logs@[i2 as int].1@));
                assert(out@ =~= mid + enc_list(self@.reviews.take(i2 + 1), log_enc()));
            }
            i2 = i2 + 1;
        }
        proof {
            assert(self@.reviews.take(self@.reviews.len() as int) =~= self@.reviews);
            assert(out@ =~= spec_encode_state(self@));
        }
        Some(out)
    }

    /// Decode the canonical encoding of a well-formed state. Succeeds
    /// exactly on the encodings `as_bytes` produces from well-formed
    /// states, and then returns the one state that encodes to `b`; any
    /// other buffer is `MalformedState`.
    #[verifier::rlimit(80)]
    pub fn from_bytes(b: &Vec<u8>) -> (r: Result<RestaurantReview, ContractError>)
        ensures
            r is Ok ==> state_ok(r->Ok_0@) && state_wf(r->Ok_0@) && b@ == spec_encode_state(
                r->Ok_0@,
            ),
            forall|sv: StateView|
                state_ok(sv) && state_wf(sv) && b@ == #[trigger] spec_encode_state(sv) ==> (
                r is Ok && r->Ok_0@ == sv),
            r is Err ==> r->Err_0 == ContractError::MalformedState,
    {
        let s = b.as_slice();
        let (n1, _c1) = match read_u32_at(s, 0) {
            Some(p) => p,
            None => {
                proof {
                    assert forall|sv: StateView|
                        state_ok(sv) && state_wf(sv) && b@ == #[trigger] spec_encode_state(
                            sv,
                        ) implies false by {
                        lemma_state_segments(b@, sv);
                    }
                }
                return Err(ContractError::MalformedState);
            },
        };
        let (rests, j1) = match read_rest_entries(s, 4, n1 as usize) {
            Some(p) => p,
            None => {
                proof {
                    assert forall|sv: StateView|
                        state_ok(sv) && state_wf(sv) && b@ == #[trigger] spec_encode_state(
                            sv,
                        ) implies false by {
                        lemma_state_segments(b@, sv);
                        assert((sv.restaurants.len() as u32) as usize == sv.restaurants.len());
                    }
                }
                return Err(ContractError::MalformedState);
            },
        };
        let (n2, _c2) = match read_u32_at(s, j1) {
            Some(p) => p,
            None => {
                proof {
                    assert forall|sv: StateView|
                        state_ok(sv) && state_wf(sv) && b@ == #[trigger] spec_encode_state(
                            sv,
                        ) implies false by {
                        lemma_state_segments(b@, sv);
                        assert((sv.restaurants.len() as u32) as usize == sv.restaurants.len());
                    }
                }
                return Err(ContractError::MalformedState);
            },
        };
        let j1b = j1 + 4;
        let (logs, j2) = match read_log_entries(s, j1b, n2 as usize) {
            Some(p) => p,
            None => {
                proof {
                    assert forall|sv: StateView|
                        state_ok(sv) && state_wf(sv) && b@ == #[trigger] spec_encode_state(
                            sv,
                        ) implies false by {
                        lemma_state_segments(b@, sv);
                        assert((sv.restaurants.len() as u32) as usize == sv.restaurants.len());
                        assert((sv.reviews.len() as u32) as usize == sv.reviews.len());
                    }
                }
                return Err(ContractError::MalformedState);
            },
        };
        if j2 != b.len() {
            proof {
                assert forall|sv: StateView|
                    state_ok(sv) && state_wf(sv) && b@ == #[trigger] spec_encode_state(
                        sv,
                    ) implies false by {
                    lemma_state_segments(b@, sv);
                    assert((sv.restaurants.len() as u32) as usize == sv.restaurants.len());
                    assert((sv.reviews.len() as u32) as usize == sv.reviews.len());
                }
            }
            return Err(ContractError::MalformedState);
        }
        if !check_unique(&rests) {
            proof {
                assert forall|sv: StateView|
                    state_ok(sv) && state_wf(sv) && b@ == #[trigger] spec_encode_state(
                        sv,
                    ) implies false by {
                    lemma_state_segments(b@, sv);
                    assert((sv.restaurants.len() as u32) as usize == sv.restaurants.len());
                    assert((sv.reviews.len() as u32) as usize == sv.reviews.len());
                    assert(rests_view(rests@) == sv.restaurants);
                }
            }
            return Err(ContractError::MalformedState);
        }
        let st = RestaurantReview::from_parts(rests, logs);
        proof {
            assert(st@.restaurants =~= rests_view(rests@));
            assert(st@.reviews =~= logs_view(logs@));
            assert(b@ =~= b@.subrange(0, 4) + b@.subrange(4, j1 as int) + b@.subrange(
                j1 as int,
                j1b as int,
            ) + b@.subrange(j1b as int, j2 as int));
            assert(n1 as usize as u32 == n1) by (bit_vector);
            assert(n2 as usize as u32 == n2) by (bit_vector);
            assert(rests@.len() as u32 == n1);
            assert(logs@.len() as u32 == n2);
            assert(b@ == spec_encode_state(st@));
            assert forall|sv: StateView|
                state_ok(sv) && state_wf(sv) && b@ == #[trigger] spec_encode_state(
                    sv,
                ) implies st@ == sv by {
                lemma_state_segments(b@, sv);
                assert((sv.restaurants.len() as u32) as usize == sv.restaurants.len());
                assert((sv.reviews.len() as u32) as usize == sv.reviews.len());
                assert(st@.restaurants == sv.restaurants);
                assert(st@.reviews == sv.reviews);
                assert(st@ =~= sv);
            }
        }
        Ok(st)
    }
}


/// Two buffers starting with an eight-byte little-endian integer agree on
/// the integer and on what follows.
proof fn lemma_enc_u64_prefix(x1: u64, x2: u64, r1: Seq<u8>, r2: Seq<u8>)
    requires
        spec_u64_to_le_bytes(x1) + r1 == spec_u64_to_le_bytes(x2) + r2,
    ensures
        x1 == x2,
        r1 == r2,
{
    lemma_auto_spec_u64_to_from_le_bytes();
    let s = spec_u64_to_le_bytes(x1) + r1;
    assert(s.subrange(0, 8) =~= spec_u64_to_le_bytes(x1));
    assert(s.subrange(0, 8) =~= spec_u64_to_le_bytes(x2));
    assert(spec_u64_from_le_bytes(spec_u64_to_le_bytes(x1)) == x1);
    assert(spec_u64_from_le_bytes(spec_u64_to_le_bytes(x2)) == x2);
    assert(r1 =~= s.subrange(8, s.len() as int));
    assert(r2 =~= s.subrange(8, s.len() as int));
}

/// Two buffers starting with a four-byte little-endian integer agree on
/// the integer and on what follows.
proof fn lemma_enc_u32_prefix(x1: u32, x2: u32, r1: Seq<u8>, r2: Seq<u8>)
    requires
        spec_u32_to_le_bytes(x1) + r1 == spec_u32_to_le_bytes(x2) + r2,
    ensures
        x1 == x2,
        r1 == r2,
{
    lemma_auto_spec_u32_to_from_le_bytes();
    let s = spec_u32_to_le_bytes(x1) + r1;
    assert(s.subrange(0, 4) =~= spec_u32_to_le_bytes(x1));
    assert(s.subrange(0, 4) =~= spec_u32_to_le_bytes(x2));
    assert(spec_u32_from_le_bytes(spec_u32_to_le_bytes(x1)) == x1);
    assert(spec_u32_from_le_bytes(spec_u32_to_le_bytes(x2)) == x2);
    assert(r1 =~= s.subrange(4, s.len() as int));
    assert(r2 =~= s.subrange(4, s.len() as int));
}

/// Two equally long encoded registry entry lists heading one buffer are
/// the same list, followed by the same remainder.
proof fn lemma_rest_list_inj(
    s1: Seq<(Seq<char>, Seq<u8>)>,
    s2: Seq<(Seq<char>, Seq<u8>)>,
    r1: Seq<u8>,
    r2: Seq<u8>,
)
    requires
        s1.len() == s2.len(),
        forall|m: int| 0 <= m < s1.len() ==> rest_entry_ok(#[trigger] s1[m]),
        forall|m: int| 0 <= m < s2.len() ==> rest_entry_ok(#[trigger] s2[m]),
        enc_list(s1, rest_enc()) + r1 == enc_list(s2, rest_enc()) + r2,
    ensures
        s1 == s2,
        r1 == r2,
    decreases s1.len(),
{
    if s1.len() == 0 {
        assert(enc_list(s1, rest_enc()) + r1 =~= r1);
        assert(enc_list(s2, rest_enc()) + r2 =~= r2);
        assert(s1 =~= s2);
    } else {
        let e1 = s1[0];
        let e2 = s2[0];
        let t1 = enc_list(s1.drop_first(), rest_enc()) + r1;
        let t2 = enc_list(s2.drop_first(), rest_enc()) + r2;
        assert(enc_list(s1, rest_enc()) + r1 =~= enc_str(e1.0) + (enc_bytes(e1.1) + t1));
        assert(enc_list(s2, rest_enc()) + r2 =~= enc_str(e2.0) + (enc_bytes(e2.1) + t2));
        lemma_enc_str_prefix(e1.0, e2.0, enc_bytes(e1.1) + t1, enc_bytes(e2.1) + t2);
        lemma_enc_bytes_prefix(e1.1, e2.1, t1, t2);
        lemma_rest_list_inj(s1.drop_first(), s2.drop_first(), r1, r2);
        assert(e1 == (e1.0, e1.1));
        assert(e2 == (e2.0, e2.1));
        assert forall|m: int| 0 <= m < s1.len() implies s1[m] == s2[m] by {
            if m > 0 {
                assert(s1[m] == s1.drop_first()[m - 1]);
                assert(s2[m] == s2.drop_first()[m - 1]);
            }
        }
        assert(s1 =~= s2);
    }
}

/// Two encoded review log entries heading one buffer are the same entry,
/// followed by the same remainder.
proof fn lemma_log_entry_inj(
    e1: (Seq<char>, ReviewView),
    e2: (Seq<char>, ReviewView),
    t1: Seq<u8>,
    t2: Seq<u8>,
)
    requires
        log_entry_ok(e1),
        log_entry_ok(e2),
        enc_log_entry(e1) + t1 == enc_log_entry(e2) + t2,
    ensures
        e1 == e2,
        t1 == t2,
{
    let u1 = spec_u64_to_le_bytes(e1.1.timestamp) + t1;
    let u2 = spec_u64_to_le_bytes(e2.1.timestamp) + t2;
    let p1 = enc_bytes(e1.1.zk_proof) + u1;
    let p2 = enc_bytes(e2.1.zk_proof) + u2;
    let w1 = enc_str(e1.1.review_text) + p1;
    let w2 = enc_str(e2.1.review_text) + p2;
    let c1 = enc_str(e1.1.client) + w1;
    let c2 = enc_str(e2.1.client) + w2;
    assert(enc_log_entry(e1) + t1 =~= enc_str(e1.0) + c1);
    assert(enc_log_entry(e2) + t2 =~= enc_str(e2.0) + c2);
    lemma_enc_str_prefix(e1.0, e2.0, c1, c2);
    lemma_enc_str_prefix(e1.1.client, e2.1.client, w1, w2);
    lemma_enc_str_prefix(e1.1.review_text, e2.1.review_text, p1, p2);
    lemma_enc_bytes_prefix(e1.1.zk_proof, e2.1.zk_proof, u1, u2);
    lemma_enc_u64_prefix(e1.1.timestamp, e2.1.timestamp, t1, t2);
    assert(e1.1 == ReviewView {
        client: e1.1.client,
        review_text: e1.1.review_text,
        zk_proof: e1.1.zk_proof,
        timestamp: e1.1.timestamp,
    });
    assert(e2.1 == ReviewView {
        client: e2.1.client,
        review_text: e2.1.review_text,
        zk_proof: e2.1.zk_proof,
        timestamp: e2.1.timestamp,
    });
    assert(e1 == (e1.0, e1.1));
    assert(e2 == (e2.0, e2.1));
}

/// Two equally long encoded review log entry lists heading one buffer are
/// the same list, followed by the same remainder.
proof fn lemma_log_list_inj(
    s1: Seq<(Seq<char>, ReviewView)>,
    s2: Seq<(Seq<char>, ReviewView)>,
    r1: Seq<u8>,
    r2: Seq<u8>,
)
    requires
        s1.len() == s2.len(),
        forall|m: int| 0 <= m < s1.len() ==> log_entry_ok(#[trigger] s1[m]),
        forall|m: int| 0 <= m < s2.len() ==> log_entry_ok(#[trigger] s2[m]),
        enc_list(s1, log_enc()) + r1 == enc_list(s2, log_enc()) + r2,
    ensures
        s1 == s2,
        r1 == r2,
    decreases s1.len(),
{
    if s1.len() == 0 {
        assert(enc_list(s1, log_enc()) + r1 =~= r1);
        assert(enc_list(s2, log_enc()) + r2 =~= r2);
        assert(s1 =~= s2);
    } else {
        let e1 = s1[0];
        let e2 = s2[0];
        let t1 = enc_list(s1.drop_first(), log_enc()) + r1;
        let t2 = enc_list(s2.drop_first(), log_enc()) + r2;
        assert(enc_list(s1, log_enc()) + r1 =~= enc_log_entry(e1) + t1);
        assert(enc_list(s2, log_enc()) + r2 =~= enc_log_entry(e2) + t2);
        lemma_log_entry_inj(e1, e2, t1, t2);
        lemma_log_list_inj(s1.drop_first(), s2.drop_first(), r1, r2);
        assert forall|m: int| 0 <= m < s1.len() implies s1[m] == s2[m] by {
            if m > 0 {
                assert(s1[m] == s1.drop_first()[m - 1]);
                assert(s2[m] == s2.drop_first()[m - 1]);
            }
        }
        assert(s1 =~= s2);
    }
}

/// The state digest is collision-free: two states with the same canonical
/// encoding are the same state, so any two different states have
/// different digests.
pub proof fn lemma_encode_state_injective(v1: StateView, v2: StateView)
    requires
        state_ok(v1),
        state_ok(v2),
        spec_encode_state(v1) == spec_encode_state(v2),
    ensures
        v1 == v2,
{
    lemma_auto_spec_u32_to_from_le_bytes();
    let b = spec_encode_state(v1);
    let t1 = enc_list(v1.restaurants, rest_enc()) + (spec_u32_to_le_bytes(
        v1.reviews.len() as u32,
    ) + enc_list(v1.reviews, log_enc()));
    let t2 = enc_list(v2.restaurants, rest_enc()) + (spec_u32_to_le_bytes(
        v2.reviews.len() as u32,
    ) + enc_list(v2.reviews, log_enc()));
    assert(b =~= spec_u32_to_le_bytes(v1.restaurants.len() as u32) + t1);
    assert(b =~= spec_u32_to_le_bytes(v2.restaurants.len() as u32) + t2);
    lemma_enc_u32_prefix(v1.restaurants.len() as u32, v2.restaurants.len() as u32, t1, t2);
    assert(v1.restaurants.len() == v2.restaurants.len());
    lemma_rest_list_inj(
        v1.restaurants,
        v2.restaurants,
        spec_u32_to_le_bytes(v1.reviews.len() as u32) + enc_list(v1.reviews, log_enc()),
        spec_u32_to_le_bytes(v2.reviews.len() as u32) + enc_list(v2.reviews, log_enc()),
    );
    lemma_enc_u32_prefix(
        v1.reviews.len() as u32,
        v2.reviews.len() as u32,
        enc_list(v1.reviews, log_enc()),
        enc_list(v2.reviews, log_enc()),
    );
    assert(v1.reviews.len() == v2.reviews.len());
    let none: Seq<u8> = Seq::empty();
    assert(enc_list(v1.reviews, log_enc()) + none =~= enc_list(v1.reviews, log_enc()));
    assert(enc_list(v2.reviews, log_enc()) + none =~= enc_list(v2.reviews, log_enc()));
    lemma_log_list_inj(v1.reviews, v2.reviews, none, none);
    assert(v1 =~= v2);
}

/// Round trip: the canonical encoding of any well-formed state decodes
/// back to exactly that state.
pub proof fn lemma_state_round_trip(sv: StateView)
    requires
        state_ok(sv),
        state_wf(sv),
    ensures
        state_decodable(spec_encode_state(sv)),
        spec_decode_state(spec_encode_state(sv)) == Some(sv),
{
    let b = spec_encode_state(sv);
    assert(state_ok(sv) && state_wf(sv) && b == spec_encode_state(sv));
    assert(state_decodable(b));
    let sv2 = choose|v: StateView| state_ok(v) && state_wf(v) && b == spec_encode_state(v);
    lemma_encode_state_injective(sv, sv2);
}

} // verus!
