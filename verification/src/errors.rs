//! Error kinds surfaced by the contract core.

use vstd::prelude::*;

verus! {

/// Every failure the verified core can report.
///
/// - `RestaurantNotFound`: a review was submitted against an id that is not
///   in the registry; the state is left untouched.
/// - `MalformedAction`: an action byte buffer is not the canonical encoding
///   of any action.
/// - `MalformedState`: a prior-state byte buffer is not the canonical
///   encoding of any well-formed state.
/// - `ClaimOutOfWindow`: a signed claim's timestamp lies outside the allowed
///   time window, so no proof may be produced for it.
#[derive(Clone, Copy, Debug, PartialEq, Eq, Structural)]
pub enum ContractError {
    RestaurantNotFound,
    MalformedAction,
    MalformedState,
    ClaimOutOfWindow,
}

} // verus!
