use restaurant_review::engine::execute;
use restaurant_review::ContractError;
use restaurant_review::RestaurantReview;
use restaurant_review::RestaurantReviewAction;

#[test]
fn register_inserts_entry() {
    let mut st = RestaurantReview::new();
    assert_eq!(st.restaurant_count(), 0);
    st.register_restaurant("r1".to_string(), vec![1, 2, 3]);
    assert_eq!(st.restaurant_count(), 1);
    assert_eq!(st.get_restaurant(&"r1".to_string()), Some(&vec![1u8, 2, 3]));
    assert_eq!(st.get_restaurant(&"r2".to_string()), None);
}

#[test]
fn register_twice_keeps_latest_key() {
    let mut st = RestaurantReview::new();
    st.register_restaurant("r1".to_string(), vec![1, 2, 3]);
    st.register_restaurant("r1".to_string(), vec![9, 9]);
    assert_eq!(st.restaurant_count(), 1);
    assert_eq!(st.get_restaurant(&"r1".to_string()), Some(&vec![9u8, 9]));
}

#[test]
fn submit_review_absent_restaurant_fails_unchanged() {
    let mut st = RestaurantReview::new();
    let before = st.as_bytes().unwrap();
    let r = st.submit_review(
        "r1".to_string(),
        "c1".to_string(),
        "text".to_string(),
        vec![7],
        123,
    );
    assert_eq!(r, Err(ContractError::RestaurantNotFound));
    let after = st.as_bytes().unwrap();
    assert_eq!(before, after);
    assert_eq!(st.review_count(&"r1".to_string()), 0);
}

#[test]
fn submit_review_appends_in_order() {
    let mut st = RestaurantReview::new();
    st.register_restaurant("r1".to_string(), vec![1]);
    st.register_restaurant("r2".to_string(), vec![2]);
    st.submit_review("r1".to_string(), "a".to_string(), "first".to_string(), vec![], 10)
        .unwrap();
    st.submit_review("r2".to_string(), "b".to_string(), "other".to_string(), vec![], 20)
        .unwrap();
    st.submit_review("r1".to_string(), "c".to_string(), "second".to_string(), vec![], 30)
        .unwrap();
    assert_eq!(st.review_count(&"r1".to_string()), 2);
    assert_eq!(st.review_count(&"r2".to_string()), 1);
    let first = st.get_review(&"r1".to_string(), 0).unwrap();
    assert_eq!(first.client, "a");
    assert_eq!(first.review_text, "first");
    assert_eq!(first.timestamp, 10);
    let second = st.get_review(&"r1".to_string(), 1).unwrap();
    assert_eq!(second.client, "c");
    assert_eq!(second.review_text, "second");
    assert_eq!(second.timestamp, 30);
    assert!(st.get_review(&"r1".to_string(), 2).is_none());
}

#[test]
fn scenario_register_then_submit() {
    let mut st = RestaurantReview::new();
    st.register_restaurant("r1".to_string(), vec![1, 2, 3]);
    st.submit_review(
        "r1".to_string(),
        "c1".to_string(),
        "great!".to_string(),
        vec![9, 9, 9],
        1000,
    )
    .unwrap();
    assert_eq!(st.restaurant_count(), 1);
    assert_eq!(st.review_count(&"r1".to_string()), 1);
    let rev = st.get_review(&"r1".to_string(), 0).unwrap();
    assert_eq!(rev.client, "c1");
    assert_eq!(rev.review_text, "great!");
    assert_eq!(rev.zk_proof, vec![9, 9, 9]);
    assert_eq!(rev.timestamp, 1000);
}

#[test]
fn scenario_submit_on_genesis_fails() {
    let mut st = RestaurantReview::new();
    let genesis_bytes = st.as_bytes().unwrap();
    let r = st.submit_review(
        "r1".to_string(),
        "c1".to_string(),
        "great!".to_string(),
        vec![],
        1000,
    );
    assert_eq!(r, Err(ContractError::RestaurantNotFound));
    assert_eq!(st.as_bytes().unwrap(), genesis_bytes);
}

#[test]
fn execute_register_and_submit_from_bytes() {
    let register = RestaurantReviewAction::RegisterRestaurant {
        id: "r1".to_string(),
        public_key: vec![1, 2, 3],
    };
    let reg_bytes = register.to_bytes().unwrap();
    let (st1, outcome) = execute(&Vec::new(), &reg_bytes).unwrap();
    assert_eq!(outcome, "Action executed successfully");
    assert_eq!(st1.restaurant_count(), 1);

    let st1_bytes = st1.as_bytes().unwrap();
    let submit = RestaurantReviewAction::SubmitReview {
        restaurant_id: "r1".to_string(),
        client: "c1".to_string(),
        review_text: "great!".to_string(),
        zk_proof: vec![4, 5],
        timestamp: 1000,
    };
    let sub_bytes = submit.to_bytes().unwrap();
    let (st2, _) = execute(&st1_bytes, &sub_bytes).unwrap();
    assert_eq!(st2.review_count(&"r1".to_string()), 1);
    assert_eq!(st2.get_review(&"r1".to_string(), 0).unwrap().timestamp, 1000);
}

#[test]
fn execute_rejects_malformed_state() {
    let action = RestaurantReviewAction::RegisterRestaurant {
        id: "r1".to_string(),
        public_key: vec![],
    };
    let act_bytes = action.to_bytes().unwrap();
    let bad_state = vec![1u8, 2, 3];
    assert_eq!(
        execute(&bad_state, &act_bytes).unwrap_err(),
        ContractError::MalformedState
    );
}

#[test]
fn execute_rejects_malformed_action() {
    let bad_action = vec![42u8, 0, 0];
    assert_eq!(
        execute(&Vec::new(), &bad_action).unwrap_err(),
        ContractError::MalformedAction
    );
}

#[test]
fn execute_submit_on_genesis_is_not_found() {
    let submit = RestaurantReviewAction::SubmitReview {
        restaurant_id: "r1".to_string(),
        client: "c1".to_string(),
        review_text: "t".to_string(),
        zk_proof: vec![],
        timestamp: 5,
    };
    let sub_bytes = submit.to_bytes().unwrap();
    assert_eq!(
        execute(&Vec::new(), &sub_bytes).unwrap_err(),
        ContractError::RestaurantNotFound
    );
}
