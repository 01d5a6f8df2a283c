//! A verifiable state-transition contract for restaurant reviews.
//!
//! The crate holds the deterministic core of the contract: the state machine
//! over the restaurant registry and the review ledger, the canonical binary
//! codec for actions and state, the state digest, and the signed-claim window
//! check that gates review submission.

pub mod claim;
pub mod codec;
pub mod engine;
pub mod errors;
pub mod state;

pub use claim::SignedClaim;
pub use errors::ContractError;
pub use state::Restaurant;
pub use state::RestaurantReview;
pub use state::RestaurantReviewAction;
pub use state::Review;
