//! The signed-claim window check that gates review submission, together
//! with the decimal forms its byte-level inputs and outputs use.
//!
//! The check runs inside the proof-generation boundary: it receives the
//! claim's public fields and a time window, asserts that the claim's
//! timestamp lies inside the window, and emits a public journal holding
//! exactly the visit id and the timestamp. A claim outside the window
//! yields no journal, so no proof can be produced for it.

use vstd::prelude::*;

use vstd::utf8::encode_utf8;

use crate::errors::ContractError;

verus! {

/// The length of the trailing claim window, in seconds: thirty days.
pub const CLAIM_WINDOW_SECS: u64 = 30 * 24 * 60 * 60;

/// One ASCII decimal digit.
pub open spec fn is_dec_digit(b: u8) -> bool {
    48 <= b <= 57
}

/// Every byte of `s` is an ASCII decimal digit.
pub open spec fn all_digits(s: Seq<u8>) -> bool {
    forall|i: int| 0 <= i < s.len() ==> is_dec_digit(#[trigger] s[i])
}

/// The number the digit string `s` denotes, most significant digit first.
pub open spec fn dec_value(s: Seq<u8>) -> int
    decreases s.len(),
{
    if s.len() == 0 {
        0
    } else {
        dec_value(s.drop_last()) * 10 + (s.last() - 48)
    }
}

/// The canonical decimal digits of `n`, without leading zeros.
pub open spec fn dec_bytes(n: u64) -> Seq<u8>
    decreases n,
{
    if n < 10 {
        seq![(48 + n) as u8]
    } else {
        dec_bytes(n / 10).push((48 + n % 10) as u8)
    }
}

/// A digit string denotes a non-negative number.
proof fn lemma_dec_value_nonneg(s: Seq<u8>)
    requires
        all_digits(s),
    ensures
        dec_value(s) >= 0,
    decreases s.len(),
{
    if s.len() > 0 {
        assert(all_digits(s.drop_last()));
        lemma_dec_value_nonneg(s.drop_last());
    }
}

/// Extending a digit string never shrinks its value.
proof fn lemma_dec_value_prefix_le(s: Seq<u8>, i: int)
    requires
        all_digits(s),
        0 <= i <= s.len(),
    ensures
        dec_value(s.take(i)) <= dec_value(s),
    decreases s.len() - i,
{
    if i == s.len() {
        assert(s.take(i) =~= s);
    } else {
        lemma_dec_value_prefix_le(s, i + 1);
        assert(s.take(i + 1).drop_last() =~= s.take(i));
        assert(s.take(i + 1).last() == s[i]);
        assert(all_digits(s.take(i)));
        lemma_dec_value_nonneg(s.take(i));
        assert(dec_value(s.take(i + 1)) == dec_value(s.take(i)) * 10 + (s[i] - 48));
        assert(dec_value(s.take(i)) * 10 >= dec_value(s.take(i))) by (nonlinear_arith)
            requires
                dec_value(s.take(i)) >= 0,
        ;
    }
}

/// Parse an ASCII decimal digit string into a 64-bit number. Succeeds
/// exactly when the buffer is non-empty, holds digits only, and denotes a
/// value that fits.
pub fn parse_u64_dec(b: &Vec<u8>) -> (r: Option<u64>)
    ensures
        r is Some <==> b@.len() > 0 && all_digits(b@) && dec_value(b@) <= u64::MAX,
        r is Some ==> r->0 == dec_value(b@),
{
    if b.len() == 0 {
        return None;
    }
    let mut acc: u64 = 0;
    let mut i: usize = 0;
    proof {
        assert(b@.take(0) =~= Seq::<u8>::empty());
    }
    while i < b.len()
        invariant
            0 <= i <= b@.len(),
            all_digits(b@.take(i as int)),
            acc == dec_value(b@.take(i as int)),
        decreases b@.len() - i,
    {
        let d = b[i];
        if d < 48 || d > 57 {
            proof {
                assert(!is_dec_digit(b@[i as int]));
                assert(!all_digits(b@));
            }
            return None;
        }
        let dv = (d - 48) as u64;
        let limit = (u64::MAX - dv) / 10;
        proof {
            assert(b@.take(i + 1).drop_last() =~= b@.take(i as int));
            assert(b@.take(i + 1).last() == b@[i as int]);
            assert(all_digits(b@.take(i + 1)));
            assert(dec_value(b@.take(i + 1)) == acc * 10 + dv);
            assert(10 * ((u64::MAX - dv) as int / 10) <= (u64::MAX - dv) as int) by (
            nonlinear_arith);
            assert(((u64::MAX - dv) as int) < 10 * ((u64::MAX - dv) as int / 10) + 10) by (
            nonlinear_arith);
        }
        if acc > limit {
            proof {
                assert(acc * 10 + dv > u64::MAX) by (nonlinear_arith)
                    requires
                        acc > (u64::MAX - dv) as int / 10,
                        10 * ((u64::MAX - dv) as int / 10) + 10 > (u64::MAX - dv) as int,
                        0 <= dv <= 9,
                ;
                if all_digits(b@) {
                    lemma_dec_value_prefix_le(b@, i + 1);
                }
            }
            return None;
        }
        proof {
            assert(acc * 10 + dv <= u64::MAX) by (nonlinear_arith)
                requires
                    acc <= (u64::MAX - dv) as int / 10,
                    10 * ((u64::MAX - dv) as int / 10) <= (u64::MAX - dv) as int,
                    0 <= dv <= 9,
                    acc >= 0,
            ;
        }
        acc = acc * 10 + dv;
        i = i + 1;
    }
    proof {
        assert(b@.take(b@.len() as int) =~= b@);
    }
    Some(acc)
}

/// Write `n` as its canonical ASCII decimal digits.
pub fn u64_to_dec(n: u64) -> (r: Vec<u8>)
    ensures
        r@ == dec_bytes(n),
    decreases n,
{
    if n < 10 {
        let mut v: Vec<u8> = Vec::new();
        v.push(48 + n as u8);
        proof {
            assert(v@ =~= dec_bytes(n));
        }
        v
    } else {
        let mut v = u64_to_dec(n / 10);
        v.push(48 + (n % 10) as u8);
        proof {
            assert(v@ =~= dec_bytes(n));
        }
        v
    }
}

/// A signed visit claim, as the proof environment sees it. The signature's
/// authenticity is checked by the surrounding proof infrastructure; the
/// window check here never reads it, and never echoes it.
pub struct SignedClaim {
    pub visit_id: String,
    pub timestamp: u64,
    pub signature: String,
}

/// The public journal for a verified claim: a small textual structure
/// holding exactly the visit id and the timestamp.
pub open spec fn spec_journal(visit_id: Seq<char>, timestamp: u64) -> Seq<u8> {
    journal_prefix() + encode_utf8(visit_id) + journal_middle() + dec_bytes(timestamp) + seq![
        125u8,
    ]
}

/// The bytes before the visit id in the journal.
pub open spec fn journal_prefix() -> Seq<u8> {
    seq![123u8, 34u8, 118u8, 105u8, 115u8, 105u8, 116u8, 95u8, 105u8, 100u8, 34u8, 58u8, 34u8]
}

/// The bytes between the visit id and the timestamp in the journal.
pub open spec fn journal_middle() -> Seq<u8> {
    seq![34u8, 44u8, 34u8, 116u8, 105u8, 109u8, 101u8, 115u8, 116u8, 97u8, 109u8, 112u8, 34u8,
        58u8]
}

/// Push the journal's fixed leading bytes.
fn push_journal_prefix(out: &mut Vec<u8>)
    ensures
        final(out)@ == old(out)@ + journal_prefix(),
{
    out.push(123);
    out.push(34);
    out.push(118);
    out.push(105);
    out.push(115);
    out.push(105);
    out.push(116);
    out.push(95);
    out.push(105);
    out.push(100);
    out.push(34);
    out.push(58);
    out.push(34);
    proof {
        assert(final(out)@ =~= old(out)@ + journal_prefix());
    }
}

/// Push the journal's fixed middle bytes.
fn push_journal_middle(out: &mut Vec<u8>)
    ensures
        final(out)@ == old(out)@ + journal_middle(),
{
    out.push(34);
    out.push(44);
    out.push(34);
    out.push(116);
    out.push(105);
    out.push(109);
    out.push(101);
    out.push(115);
    out.push(116);
    out.push(97);
    out.push(109);
    out.push(112);
    out.push(34);
    out.push(58);
    proof {
        assert(final(out)@ =~= old(out)@ + journal_middle());
    }
}

/// Check a signed claim against the window `[start, end]` and emit the
/// public journal. Succeeds exactly when `start <= timestamp <= end`; both
/// boundary values are inside the window. On failure no journal exists, so
/// no proof of the claim can be produced.
pub fn verify_claim(claim: &SignedClaim, start: u64, end: u64) -> (r: Result<
    Vec<u8>,
    ContractError,
>)
    ensures
        r is Ok <==> start <= claim.timestamp <= end,
        r is Ok ==> (r->Ok_0)@ == spec_journal(claim.visit_id@, claim.timestamp),
        r is Err ==> r->Err_0 == ContractError::ClaimOutOfWindow,
{
    if claim.timestamp < start || claim.timestamp > end {
        return Err(ContractError::ClaimOutOfWindow);
    }
    let mut out: Vec<u8> = Vec::new();
    push_journal_prefix(&mut out);
    let id_bytes = claim.visit_id.as_str().as_bytes();
    let mut id_vec = vstd::slice::slice_to_vec(id_bytes);
    out.append(&mut id_vec);
    push_journal_middle(&mut out);
    let mut ts = u64_to_dec(claim.timestamp);
    out.append(&mut ts);
    out.push(125);
    proof {
        assert(out@ =~= spec_journal(claim.visit_id@, claim.timestamp));
    }
    Ok(out)
}

/// The trailing thirty-day claim window ending at `now`: review submission
/// accepts claims whose timestamp is at most thirty days old at
/// proof-generation time.
pub fn claim_window(now: u64) -> (r: (u64, u64))
    requires
        now >= CLAIM_WINDOW_SECS,
    ensures
        r.0 == now - CLAIM_WINDOW_SECS,
        r.1 == now,
{
    (now - CLAIM_WINDOW_SECS, now)
}

} // verus!
