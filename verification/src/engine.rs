//! The contract execution entry point: replay one action against a
//! serialized prior state, atomically.

use vstd::prelude::*;

use crate::codec::spec_decode_action;
use crate::codec::spec_decode_state;
use crate::errors::ContractError;
use crate::state::empty_state;
use crate::state::spec_apply;
use crate::state::RestaurantReview;
use crate::state::RestaurantReviewAction;
use crate::state::StateView;

verus! {

/// The state a prior-state buffer denotes: genesis for an empty buffer,
/// else the well-formed state the buffer canonically encodes.
pub open spec fn spec_prior_state(b: Seq<u8>) -> Option<StateView> {
    if b.len() == 0 {
        Some(empty_state())
    } else {
        spec_decode_state(b)
    }
}

/// Execute one action against a serialized prior state: deserialize the
/// state (an empty buffer is genesis), decode the action, apply it, and
/// return the new state with a textual outcome. Any failure aborts the
/// whole execution with no partial mutation: the prior state is never
/// returned changed.
pub fn execute(state_bytes: &Vec<u8>, action_bytes: &Vec<u8>) -> (r: Result<
    (RestaurantReview, String),
    ContractError,
>)
    ensures
        match spec_prior_state(state_bytes@) {
            None => r is Err && r->Err_0 == ContractError::MalformedState,
            Some(s0) => match spec_decode_action(action_bytes@) {
                None => r is Err && r->Err_0 == ContractError::MalformedAction,
                Some(av) => match spec_apply(s0, av) {
                    None => r is Err && r->Err_0 == ContractError::RestaurantNotFound,
                    Some(s1) => r is Ok && (r->Ok_0).0@ == s1 && (r->Ok_0).0.wf() && (r->Ok_0).1@
                        == "Action executed successfully"@,
                },
            },
        },
{
    let mut st = if state_bytes.len() == 0 {
        RestaurantReview::new()
    } else {
        match RestaurantReview::from_bytes(state_bytes) {
            Ok(s) => {
                proof {
                    let sv = choose|sv: StateView|
                        crate::codec::state_ok(sv) && crate::state::state_wf(sv) && state_bytes@
                            == crate::codec::spec_encode_state(sv);
                    assert(crate::codec::state_decodable(state_bytes@));
                    assert(s@ == sv);
                }
                s
            },
            Err(e) => {
                proof {
                    if crate::codec::state_decodable(state_bytes@) {
                        let sv = choose|sv: StateView|
                            crate::codec::state_ok(sv) && crate::state::state_wf(sv)
                                && state_bytes@ == crate::codec::spec_encode_state(sv);
                        assert(crate::codec::spec_encode_state(sv) == state_bytes@);
                    }
                }
                return Err(e);
            },
        }
    };
    let action = match RestaurantReviewAction::from_bytes(action_bytes) {
        Ok(a) => {
            proof {
                let av = choose|av: crate::state::ActionView|
                    crate::codec::action_ok(av) && action_bytes@
                        == crate::codec::spec_encode_action(av);
                assert(crate::codec::action_decodable(action_bytes@));
                assert(a@ == av);
            }
            a
        },
        Err(e) => {
            proof {
                if crate::codec::action_decodable(action_bytes@) {
                    let av = choose|av: crate::state::ActionView|
                        crate::codec::action_ok(av) && action_bytes@
                            == crate::codec::spec_encode_action(av);
                    assert(crate::codec::spec_encode_action(av) == action_bytes@);
                }
            }
            return Err(e);
        },
    };
    let ghost av = action@;
    match action {
        RestaurantReviewAction::RegisterRestaurant { id, public_key } => {
            st.register_restaurant(id, public_key);
        },
        RestaurantReviewAction::SubmitReview {
            restaurant_id,
            client,
            review_text,
            zk_proof,
            timestamp,
        } => {
            match st.submit_review(restaurant_id, client, review_text, zk_proof, timestamp) {
                Ok(()) => {},
                Err(e) => {
                    return Err(e);
                },
            }
        },
    }
    let outcome = "Action executed successfully".to_owned();
    Ok((st, outcome))
}

} // verus!
