use restaurant_review::claim::claim_window;
use restaurant_review::claim::parse_u64_dec;
use restaurant_review::claim::u64_to_dec;
use restaurant_review::claim::verify_claim;
use restaurant_review::claim::CLAIM_WINDOW_SECS;
use restaurant_review::ContractError;
use restaurant_review::SignedClaim;

fn claim(ts: u64) -> SignedClaim {
    SignedClaim {
        visit_id: "visit_1".to_string(),
        timestamp: ts,
        signature: "sig".to_string(),
    }
}

#[test]
fn window_boundaries() {
    let start = 1000u64;
    let end = 2000u64;
    assert!(verify_claim(&claim(start), start, end).is_ok());
    assert!(verify_claim(&claim(end), start, end).is_ok());
    assert!(verify_claim(&claim(1500), start, end).is_ok());
    assert_eq!(
        verify_claim(&claim(start - 1), start, end).unwrap_err(),
        ContractError::ClaimOutOfWindow
    );
    assert_eq!(
        verify_claim(&claim(end + 1), start, end).unwrap_err(),
        ContractError::ClaimOutOfWindow
    );
}

#[test]
fn journal_holds_exactly_visit_id_and_timestamp() {
    let journal = verify_claim(&claim(1000), 0, 2000).unwrap();
    assert_eq!(
        journal,
        b"{\"visit_id\":\"visit_1\",\"timestamp\":1000}".to_vec()
    );
    // The signature never reaches the journal.
    assert!(!String::from_utf8(journal).unwrap().contains("sig"));
}

#[test]
fn parse_u64_dec_accepts_digit_strings() {
    assert_eq!(parse_u64_dec(&b"0".to_vec()), Some(0));
    assert_eq!(parse_u64_dec(&b"1730984240".to_vec()), Some(1730984240));
    assert_eq!(parse_u64_dec(&b"007".to_vec()), Some(7));
    assert_eq!(
        parse_u64_dec(&b"18446744073709551615".to_vec()),
        Some(u64::MAX)
    );
}

#[test]
fn parse_u64_dec_rejects_bad_input() {
    assert_eq!(parse_u64_dec(&Vec::new()), None);
    assert_eq!(parse_u64_dec(&b"12a".to_vec()), None);
    assert_eq!(parse_u64_dec(&b"-1".to_vec()), None);
    assert_eq!(parse_u64_dec(&b" 1".to_vec()), None);
    assert_eq!(parse_u64_dec(&b"18446744073709551616".to_vec()), None);
}

#[test]
fn u64_to_dec_writes_canonical_digits() {
    assert_eq!(u64_to_dec(0), b"0".to_vec());
    assert_eq!(u64_to_dec(7), b"7".to_vec());
    assert_eq!(u64_to_dec(1000), b"1000".to_vec());
    assert_eq!(u64_to_dec(u64::MAX), b"18446744073709551615".to_vec());
}

#[test]
fn claim_window_is_trailing_thirty_days() {
    assert_eq!(CLAIM_WINDOW_SECS, 30 * 24 * 60 * 60);
    let now = 1730984240u64;
    let (start, end) = claim_window(now);
    assert_eq!(start, now - CLAIM_WINDOW_SECS);
    assert_eq!(end, now);
}
