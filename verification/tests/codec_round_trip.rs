use restaurant_review::ContractError;
use restaurant_review::RestaurantReview;
use restaurant_review::RestaurantReviewAction;

#[test]
fn action_round_trip_register() {
    let a = RestaurantReviewAction::RegisterRestaurant {
        id: "restaurant_1".to_string(),
        public_key: "public_key_123".to_string().into_bytes(),
    };
    let bytes = a.to_bytes().unwrap();
    let back = RestaurantReviewAction::from_bytes(&bytes).unwrap();
    assert_eq!(back, a);
}

#[test]
fn action_round_trip_submit() {
    let a = RestaurantReviewAction::SubmitReview {
        restaurant_id: "restaurant_1".to_string(),
        client: "client_1".to_string(),
        review_text: "Great service!".to_string(),
        zk_proof: "zk_proof_123".to_string().into_bytes(),
        timestamp: 1730984240,
    };
    let bytes = a.to_bytes().unwrap();
    let back = RestaurantReviewAction::from_bytes(&bytes).unwrap();
    assert_eq!(back, a);
}

#[test]
fn action_round_trip_empty_proof_and_long_strings() {
    let long = "x".repeat(100_000);
    let a = RestaurantReviewAction::SubmitReview {
        restaurant_id: long.clone(),
        client: String::new(),
        review_text: long,
        zk_proof: Vec::new(),
        timestamp: u64::MAX,
    };
    let bytes = a.to_bytes().unwrap();
    let back = RestaurantReviewAction::from_bytes(&bytes).unwrap();
    assert_eq!(back, a);
}

#[test]
fn action_round_trip_non_ascii_id() {
    // "café" has four characters but five UTF-8 bytes; the length prefix
    // counts bytes, so a codec that ignored the UTF-8 step would disagree.
    let a = RestaurantReviewAction::RegisterRestaurant {
        id: "café".to_string(),
        public_key: vec![1],
    };
    let bytes = a.to_bytes().unwrap();
    // tag + (4-byte length + 5 bytes of text) + (4-byte length + 1 byte)
    assert_eq!(bytes.len(), 1 + 4 + 5 + 4 + 1);
    let back = RestaurantReviewAction::from_bytes(&bytes).unwrap();
    assert_eq!(back, a);
}

#[test]
fn decode_rejects_bad_buffers() {
    assert_eq!(
        RestaurantReviewAction::from_bytes(&Vec::new()).unwrap_err(),
        ContractError::MalformedAction
    );
    assert_eq!(
        RestaurantReviewAction::from_bytes(&vec![7u8]).unwrap_err(),
        ContractError::MalformedAction
    );
    let good = RestaurantReviewAction::RegisterRestaurant {
        id: "r1".to_string(),
        public_key: vec![1, 2],
    }
    .to_bytes()
    .unwrap();
    // Truncated buffer.
    let truncated = good[..good.len() - 1].to_vec();
    assert_eq!(
        RestaurantReviewAction::from_bytes(&truncated).unwrap_err(),
        ContractError::MalformedAction
    );
    // Trailing byte.
    let mut trailing = good.clone();
    trailing.push(0);
    assert_eq!(
        RestaurantReviewAction::from_bytes(&trailing).unwrap_err(),
        ContractError::MalformedAction
    );
}

#[test]
fn action_encoding_matches_borsh_wire_format() {
    // The wire format is borsh's: a one-byte variant index, u32
    // little-endian length prefixes, u64 little-endian integers. Borsh
    // encodes a tuple as the plain concatenation of its fields, so the
    // variant written as a tuple must encode byte-for-byte identically.
    let a = RestaurantReviewAction::RegisterRestaurant {
        id: "r1".to_string(),
        public_key: vec![1, 2, 3],
    };
    let expected = borsh::to_vec(&(0u8, "r1".to_string(), vec![1u8, 2, 3])).unwrap();
    assert_eq!(a.to_bytes().unwrap(), expected);

    let s = RestaurantReviewAction::SubmitReview {
        restaurant_id: "r1".to_string(),
        client: "c1".to_string(),
        review_text: "nice".to_string(),
        zk_proof: vec![9],
        timestamp: 1730984240,
    };
    let expected = borsh::to_vec(&(
        1u8,
        "r1".to_string(),
        "c1".to_string(),
        "nice".to_string(),
        vec![9u8],
        1730984240u64,
    ))
    .unwrap();
    assert_eq!(s.to_bytes().unwrap(), expected);
}

#[test]
fn state_round_trip() {
    let mut st = RestaurantReview::new();
    st.register_restaurant("r1".to_string(), vec![1, 2, 3]);
    st.register_restaurant("r2".to_string(), vec![4]);
    st.submit_review("r1".to_string(), "c".to_string(), "t".to_string(), vec![5], 42)
        .unwrap();
    let bytes = st.as_bytes().unwrap();
    let back = RestaurantReview::from_bytes(&bytes).unwrap();
    assert_eq!(back.as_bytes().unwrap(), bytes);
    assert_eq!(back.restaurant_count(), 2);
    assert_eq!(back.get_restaurant(&"r1".to_string()), Some(&vec![1u8, 2, 3]));
    assert_eq!(back.review_count(&"r1".to_string()), 1);
    assert_eq!(back.get_review(&"r1".to_string(), 0).unwrap().timestamp, 42);
}

#[test]
fn state_decode_rejects_garbage() {
    assert_eq!(
        RestaurantReview::from_bytes(&vec![0u8, 1, 2]).unwrap_err(),
        ContractError::MalformedState
    );
    // A duplicate registry key is not the encoding of any well-formed
    // state, even though each entry alone is fine.
    let mut st = RestaurantReview::new();
    st.register_restaurant("r1".to_string(), vec![1]);
    let one = st.as_bytes().unwrap();
    // Splice the single entry in twice and fix the count to 2.
    let entry = &one[4..one.len() - 4];
    let mut forged: Vec<u8> = vec![2, 0, 0, 0];
    forged.extend_from_slice(entry);
    forged.extend_from_slice(entry);
    forged.extend_from_slice(&[0, 0, 0, 0]);
    assert_eq!(
        RestaurantReview::from_bytes(&forged).unwrap_err(),
        ContractError::MalformedState
    );
}

#[test]
fn digest_is_deterministic_and_tracks_mutations() {
    let mut st = RestaurantReview::new();
    let d0 = st.as_bytes().unwrap();
    assert_eq!(st.as_bytes().unwrap(), d0);
    st.register_restaurant("r1".to_string(), vec![1]);
    let d1 = st.as_bytes().unwrap();
    assert_ne!(d1, d0);
    assert_eq!(st.as_bytes().unwrap(), d1);
    st.submit_review("r1".to_string(), "c".to_string(), "t".to_string(), vec![], 7)
        .unwrap();
    let d2 = st.as_bytes().unwrap();
    assert_ne!(d2, d1);
    assert_eq!(st.as_bytes().unwrap(), d2);
}
