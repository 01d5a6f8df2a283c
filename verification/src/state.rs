//! The contract state machine: the restaurant registry and the review
//! ledger, and the application of one action at a time.

use vstd::prelude::*;

use crate::errors::ContractError;

verus! {

/// An identity record for one restaurant: the opaque public key of its
/// signing identity. The id that keys it lives in the registry entry.
#[derive(Debug, Clone, PartialEq, Eq)]
pub struct Restaurant {
    pub public_key: Vec<u8>,
}

/// One appended review fact. `zk_proof` holds the externally verified proof
/// bytes retained for audit; the state machine itself does not inspect them.
#[derive(Debug, Clone, PartialEq, Eq)]
pub struct Review {
    pub client: String,
    pub review_text: String,
    pub zk_proof: Vec<u8>,
    pub timestamp: u64,
}

/// The only two units of mutation the contract accepts.
#[derive(Debug, Clone, PartialEq, Eq)]
pub enum RestaurantReviewAction {
    RegisterRestaurant { id: String, public_key: Vec<u8> },
    SubmitReview {
        restaurant_id: String,
        client: String,
        review_text: String,
        zk_proof: Vec<u8>,
        timestamp: u64,
    },
}

/// The aggregate root. The registry is an association list keyed by
/// restaurant id (unique keys); the ledger is an append-only log of
/// (restaurant id, review) pairs, so each restaurant's reviews are the
/// subsequence of the log tagged with its id, in insertion order.
#[derive(Debug, Clone)]
pub struct RestaurantReview {
    restaurants: Vec<(String, Restaurant)>,
    reviews: Vec<(String, Review)>,
}

/// Mathematical image of a `Review`.
pub struct ReviewView {
    pub client: Seq<char>,
    pub review_text: Seq<char>,
    pub zk_proof: Seq<u8>,
    pub timestamp: u64,
}

/// Mathematical image of an action.
pub enum ActionView {
    RegisterRestaurant { id: Seq<char>, public_key: Seq<u8> },
    SubmitReview {
        restaurant_id: Seq<char>,
        client: Seq<char>,
        review_text: Seq<char>,
        zk_proof: Seq<u8>,
        timestamp: u64,
    },
}

/// Mathematical image of the whole contract state.
pub struct StateView {
    pub restaurants: Seq<(Seq<char>, Seq<u8>)>,
    pub reviews: Seq<(Seq<char>, ReviewView)>,
}

impl View for Review {
    type V = ReviewView;

    open spec fn view(&self) -> ReviewView {
        ReviewView {
            client: self.client@,
            review_text: self.review_text@,
            zk_proof: self.zk_proof@,
            timestamp: self.timestamp,
        }
    }
}

impl View for RestaurantReviewAction {
    type V = ActionView;

    open spec fn view(&self) -> ActionView {
        match self {
            RestaurantReviewAction::RegisterRestaurant { id, public_key } => (
                ActionView::RegisterRestaurant { id: id@, public_key: public_key@ }
            ),
            RestaurantReviewAction::SubmitReview {
                restaurant_id,
                client,
                review_text,
                zk_proof,
                timestamp,
            } => (
                ActionView::SubmitReview {
                    restaurant_id: restaurant_id@,
                    client: client@,
                    review_text: review_text@,
                    zk_proof: zk_proof@,
                    timestamp: *timestamp,
                }
            ),
        }
    }
}

impl View for RestaurantReview {
    type V = StateView;

    closed spec fn view(&self) -> StateView {
        StateView {
            restaurants: Seq::new(
                self.restaurants@.len(),
                |i: int| (self.restaurants@[i].0@, self.restaurants@[i].1.public_key@),
            ),
            reviews: Seq::new(
                self.reviews@.len(),
                |i: int| (self.reviews@[i].0@, self.reviews@[i].1@),
            ),
        }
    }
}

/// Whether `id` keys some entry of the association list `s`.
pub open spec fn has_key<V>(s: Seq<(Seq<char>, V)>, id: Seq<char>) -> bool {
    exists|i: int| 0 <= i < s.len() && s[i].0 == id
}

/// The index of the entry keyed by `id` (meaningful only when unique).
pub open spec fn idx_of<V>(s: Seq<(Seq<char>, V)>, id: Seq<char>) -> int {
    choose|i: int| 0 <= i < s.len() && s[i].0 == id
}

/// The value stored under `id`.
pub open spec fn val_of<V>(s: Seq<(Seq<char>, V)>, id: Seq<char>) -> V {
    s[idx_of(s, id)].1
}

/// No two entries of `s` share a key.
pub open spec fn unique_keys<V>(s: Seq<(Seq<char>, V)>) -> bool {
    forall|i: int, j: int| 0 <= i < j < s.len() ==> s[i].0 != s[j].0
}

/// In a list with unique keys, two positions holding the same key coincide.
proof fn lemma_unique_idx<V>(s: Seq<(Seq<char>, V)>, i: int, j: int)
    requires
        unique_keys(s),
        0 <= i < s.len(),
        0 <= j < s.len(),
        s[i].0 == s[j].0,
    ensures
        i == j,
{
    if i < j {
        assert(s[i].0 != s[j].0);
    } else if j < i {
        assert(s[j].0 != s[i].0);
    }
}

/// Well-formedness of a state: registry keys are unique. The review log
/// needs no such condition; it is a plain append-only log.
pub open spec fn state_wf(v: StateView) -> bool {
    unique_keys(v.restaurants)
}

/// The genesis state: both parts empty.
pub open spec fn empty_state() -> StateView {
    StateView { restaurants: Seq::empty(), reviews: Seq::empty() }
}

/// The predicate selecting log entries tagged with `id`.
pub open spec fn tag_is(id: Seq<char>) -> spec_fn((Seq<char>, ReviewView)) -> bool {
    |e: (Seq<char>, ReviewView)| e.0 == id
}

/// The projection dropping a log entry's tag.
pub open spec fn entry_review() -> spec_fn((Seq<char>, ReviewView)) -> ReviewView {
    |e: (Seq<char>, ReviewView)| e.1
}

/// The log entries recorded for `id`, tags still attached.
pub open spec fn reviews_filtered(v: StateView, id: Seq<char>) -> Seq<(Seq<char>, ReviewView)> {
    v.reviews.filter(tag_is(id))
}

/// The ordered sequence of reviews recorded for `id`: the log entries
/// tagged `id`, in log order.
pub open spec fn reviews_of(v: StateView, id: Seq<char>) -> Seq<ReviewView> {
    reviews_filtered(v, id).map_values(entry_review())
}

/// Registering `id` with key `pk`: overwrite the entry if `id` is already
/// present, append a fresh entry otherwise. The ledger is untouched.
pub open spec fn spec_register(v: StateView, id: Seq<char>, pk: Seq<u8>) -> StateView {
    StateView {
        restaurants: if has_key(v.restaurants, id) {
            v.restaurants.update(idx_of(v.restaurants, id), (id, pk))
        } else {
            v.restaurants.push((id, pk))
        },
        reviews: v.reviews,
    }
}

/// Submitting a review: refused (`None`) when the restaurant is not
/// registered; otherwise the review is appended to the log and the registry
/// is untouched.
pub open spec fn spec_submit(v: StateView, id: Seq<char>, rv: ReviewView) -> Option<StateView> {
    if has_key(v.restaurants, id) {
        Some(StateView { restaurants: v.restaurants, reviews: v.reviews.push((id, rv)) })
    } else {
        None
    }
}

/// Applying one action. Registration always succeeds; submission fails
/// exactly when the restaurant is absent.
pub open spec fn spec_apply(v: StateView, a: ActionView) -> Option<StateView> {
    match a {
        ActionView::RegisterRestaurant { id, public_key } => (
            Some(spec_register(v, id, public_key))
        ),
        ActionView::SubmitReview { restaurant_id, client, review_text, zk_proof, timestamp } => (
            spec_submit(
                v,
                restaurant_id,
                ReviewView { client, review_text, zk_proof, timestamp },
            )
        ),
    }
}

impl RestaurantReview {
    /// Well-formedness of the concrete state.
    pub open spec fn wf(&self) -> bool {
        state_wf(self@)
    }

    /// The genesis state: empty registry, empty ledger.
    pub fn new() -> (r: RestaurantReview)
        ensures
            r@ == empty_state(),
            r.wf(),
    {
        let r = RestaurantReview { restaurants: Vec::new(), reviews: Vec::new() };
        proof {
            assert(r@.restaurants =~= empty_state().restaurants);
            assert(r@.reviews =~= empty_state().reviews);
            assert(r@ =~= empty_state());
        }
        r
    }

    /// The index of `id` in the registry, if present.
    fn find_restaurant(&self, id: &String) -> (r: Option<usize>)
        ensures
            match r {
                Some(i) => 0 <= i < self@.restaurants.len() && self@.restaurants[i as int].0
                    == id@,
                None => !has_key(self@.restaurants, id@),
            },
    {
        let mut i: usize = 0;
        while i < self.restaurants.len()
            invariant
                0 <= i <= self@.restaurants.len(),
                self@.restaurants.len() == self.restaurants@.len(),
                forall|j: int| 0 <= j < i ==> self@.restaurants[j].0 != id@,
            decreases self.restaurants.len() - i,
        {
            if self.restaurants[i].0 == *id {
                assert(self@.restaurants[i as int].0 == id@);
                return Some(i);
            }
            i = i + 1;
        }
        None
    }

    /// Register a restaurant under `id`, overwriting any prior entry.
    pub fn register_restaurant(&mut self, id: String, public_key: Vec<u8>)
        requires
            old(self).wf(),
        ensures
            final(self).wf(),
            final(self)@ == spec_register(old(self)@, id@, public_key@),
    {
        let ghost pre = self@;
        let idx = self.find_restaurant(&id);
        match idx {
            Some(i) => {
                proof {
                    assert(has_key(pre.restaurants, id@));
                    // Keys are unique, so the found index is the chosen one.
                    let k = idx_of(pre.restaurants, id@);
                    assert(0 <= k < pre.restaurants.len() && pre.restaurants[k].0 == id@);
                    lemma_unique_idx(pre.restaurants, k, i as int);
                }
                self.restaurants.set(i, (id, Restaurant { public_key }));
                proof {
                    assert(self@.restaurants =~= spec_register(pre, id@, public_key@).restaurants);
                    assert(self@.reviews =~= pre.reviews);
                    assert(self@ =~= spec_register(pre, id@, public_key@));
                    lemma_register_wf(pre, id@, public_key@);
                }
            },
            None => {
                self.restaurants.push((id, Restaurant { public_key }));
                proof {
                    assert(self@.restaurants =~= spec_register(pre, id@, public_key@).restaurants);
                    assert(self@.reviews =~= pre.reviews);
                    assert(self@ =~= spec_register(pre, id@, public_key@));
                    lemma_register_wf(pre, id@, public_key@);
                }
            },
        }
    }

    /// Submit a review for `restaurant_id`. Fails with `RestaurantNotFound`,
    /// leaving the state untouched, exactly when the id is not registered;
    /// otherwise appends exactly one review to the ledger.
    pub fn submit_review(
        &mut self,
        restaurant_id: String,
        client: String,
        review_text: String,
        zk_proof: Vec<u8>,
        timestamp: u64,
    ) -> (r: Result<(), ContractError>)
        requires
            old(self).wf(),
        ensures
            final(self).wf(),
            ({
                let rv = ReviewView {
                    client: client@,
                    review_text: review_text@,
                    zk_proof: zk_proof@,
                    timestamp,
                };
                match spec_submit(old(self)@, restaurant_id@, rv) {
                    Some(v) => r is Ok && final(self)@ == v,
                    None => r == Result::<(), ContractError>::Err(ContractError::RestaurantNotFound)
                        && *final(self) == *old(self),
                }
            }),
    {
        let ghost pre = self@;
        match self.find_restaurant(&restaurant_id) {
            Some(_) => {
                let review = Review { client, review_text, zk_proof, timestamp };
                self.reviews.push((restaurant_id, review));
                proof {
                    let rv = ReviewView {
                        client: client@,
                        review_text: review_text@,
                        zk_proof: zk_proof@,
                        timestamp,
                    };
                    assert(has_key(pre.restaurants, restaurant_id@));
                    assert(self@.reviews =~= pre.reviews.push((restaurant_id@, rv)));
                    assert(self@.restaurants =~= pre.restaurants);
                    assert(self@ =~= spec_submit(pre, restaurant_id@, rv)->0);
                }
                Ok(())
            },
            None => Err(ContractError::RestaurantNotFound),
        }
    }

    /// The registry entries, in insertion order.
    pub(crate) fn entries(&self) -> (r: &Vec<(String, Restaurant)>)
        ensures
            r@.len() == self@.restaurants.len(),
            forall|i: int|
                0 <= i < r@.len() ==> #[trigger] self@.restaurants[i] == (
                r@[i].0@,
                r@[i].1.public_key@,
                ),
    {
        &self.restaurants
    }

    /// The review log entries, in insertion order.
    pub(crate) fn log(&self) -> (r: &Vec<(String, Review)>)
        ensures
            r@.len() == self@.reviews.len(),
            forall|i: int|
                0 <= i < r@.len() ==> #[trigger] self@.reviews[i] == (r@[i].0@, r@[i].1@),
    {
        &self.reviews
    }

    /// Assemble a state from its two parts.
    pub(crate) fn from_parts(
        restaurants: Vec<(String, Restaurant)>,
        reviews: Vec<(String, Review)>,
    ) -> (r: RestaurantReview)
        ensures
            r@.restaurants.len() == restaurants@.len(),
            forall|i: int|
                0 <= i < restaurants@.len() ==> #[trigger] r@.restaurants[i] == (
                restaurants@[i].0@,
                restaurants@[i].1.public_key@,
                ),
            r@.reviews.len() == reviews@.len(),
            forall|i: int|
                0 <= i < reviews@.len() ==> #[trigger] r@.reviews[i] == (
                reviews@[i].0@,
                reviews@[i].1@,
                ),
    {
        RestaurantReview { restaurants, reviews }
    }

    /// The number of registered restaurants.
    pub fn restaurant_count(&self) -> (r: usize)
        ensures
            r == self@.restaurants.len(),
    {
        self.restaurants.len()
    }

    /// The public key registered under `id`, if any.
    pub fn get_restaurant<'a>(&'a self, id: &String) -> (r: Option<&'a Vec<u8>>)
        requires
            self.wf(),
        ensures
            match r {
                Some(pk) => has_key(self@.restaurants, id@) && pk@ == val_of(
                    self@.restaurants,
                    id@,
                ),
                None => !has_key(self@.restaurants, id@),
            },
    {
        match self.find_restaurant(id) {
            Some(i) => {
                proof {
                    let k = idx_of(self@.restaurants, id@);
                    assert(0 <= k < self@.restaurants.len() && self@.restaurants[k].0 == id@);
                    lemma_unique_idx(self@.restaurants, k, i as int);
                }
                Some(&self.restaurants[i].1.public_key)
            },
            None => None,
        }
    }

    /// How many reviews the ledger holds for `id`.
    pub fn review_count(&self, id: &String) -> (r: usize)
        ensures
            r == reviews_of(self@, id@).len(),
    {
        let ghost pred = tag_is(id@);
        let mut n: usize = 0;
        let mut i: usize = 0;
        proof {
            reveal(Seq::filter);
            assert(self@.reviews.take(0) =~= Seq::<(Seq<char>, ReviewView)>::empty());
        }
        while i < self.reviews.len()
            invariant
                0 <= i <= self@.reviews.len(),
                self@.reviews.len() == self.reviews@.len(),
                n == self@.reviews.take(i as int).filter(pred).len(),
                n <= i,
                pred == tag_is(id@),
            decreases self.reviews.len() - i,
        {
            proof {
                let t = self@.reviews.take(i as int);
                assert(self@.reviews.take(i + 1) =~= t.push(self@.reviews[i as int]));
                t.lemma_filter_push(self@.reviews[i as int], pred);
            }
            if self.reviews[i].0 == *id {
                n = n + 1;
            }
            i = i + 1;
        }
        proof {
            assert(self@.reviews.take(self@.reviews.len() as int) =~= self@.reviews);
        }
        n
    }

    /// The `k`-th review recorded for `id`, in insertion order.
    pub fn get_review<'a>(&'a self, id: &String, k: usize) -> (r: Option<&'a Review>)
        ensures
            match r {
                Some(rev) => k < reviews_of(self@, id@).len() && rev@ == reviews_of(self@, id@)[
                    k as int
                ],
                None => k >= reviews_of(self@, id@).len(),
            },
    {
        let ghost pred = tag_is(id@);
        let mut n: usize = 0;
        let mut i: usize = 0;
        proof {
            reveal(Seq::filter);
            assert(self@.reviews.take(0) =~= Seq::<(Seq<char>, ReviewView)>::empty());
        }
        while i < self.reviews.len()
            invariant
                0 <= i <= self@.reviews.len(),
                self@.reviews.len() == self.reviews@.len(),
                n == self@.reviews.take(i as int).filter(pred).len(),
                n <= k,
                pred == tag_is(id@),
                self@.reviews.take(i as int).filter(pred) == reviews_filtered(self@, id@).take(
                    n as int,
                ),
            decreases self.reviews.len() - i,
        {
            proof {
                let t = self@.reviews.take(i as int);
                assert(self@.reviews.take(i + 1) =~= t.push(self@.reviews[i as int]));
                t.lemma_filter_push(self@.reviews[i as int], pred);
                lemma_filter_take_prefix(self@.reviews, pred, i + 1);
            }
            if self.reviews[i].0 == *id {
                if n == k {
                    proof {
                        let whole = reviews_filtered(self@, id@);
                        let e = self@.reviews[i as int];
                        assert(self@.reviews.take(i + 1).filter(pred) == whole.take(n + 1));
                        assert(whole.take(n + 1) == whole.take(n as int).push(e));
                        assert(n + 1 <= whole.len());
                        assert(whole[k as int] == whole.take(n + 1)[n as int]);
                        assert(whole[k as int] == e);
                        assert(reviews_of(self@, id@)[k as int] == entry_review()(e));
                        assert(reviews_of(self@, id@)[k as int] == self.reviews@[i as int].1@);
                    }
                    return Some(&self.reviews[i].1);
                }
                n = n + 1;
            }
            i = i + 1;
        }
        proof {
            assert(self@.reviews.take(self@.reviews.len() as int) =~= self@.reviews);
        }
        None
    }
}

/// A filtered take of a longer take is a prefix of the filtered whole.
proof fn lemma_filter_take_prefix(
    s: Seq<(Seq<char>, ReviewView)>,
    pred: spec_fn((Seq<char>, ReviewView)) -> bool,
    i: int,
)
    requires
        0 <= i <= s.len(),
    ensures
        s.take(i).filter(pred).len() <= s.filter(pred).len(),
        s.take(i).filter(pred) == s.filter(pred).take(s.take(i).filter(pred).len() as int),
    decreases s.len() - i,
{
    if i == s.len() {
        assert(s.take(i) =~= s);
        assert(s.filter(pred).take(s.filter(pred).len() as int) =~= s.filter(pred));
    } else {
        lemma_filter_take_prefix(s, pred, i + 1);
        let t = s.take(i);
        let t1 = s.take(i + 1);
        assert(t1 =~= t.push(s[i]));
        t.lemma_filter_push(s[i], pred);
        if pred(s[i]) {
            assert(t1.filter(pred) =~= t.filter(pred).push(s[i]));
            assert(t.filter(pred) =~= t1.filter(pred).take(t.filter(pred).len() as int));
            assert(t1.filter(pred) == s.filter(pred).take(t1.filter(pred).len() as int));
            assert(t.filter(pred) =~= s.filter(pred).take(t.filter(pred).len() as int));
        } else {
            assert(t1.filter(pred) =~= t.filter(pred));
        }
    }
}

/// Registration preserves well-formedness.
pub proof fn lemma_register_wf(v: StateView, id: Seq<char>, pk: Seq<u8>)
    requires
        state_wf(v),
    ensures
        state_wf(spec_register(v, id, pk)),
{
    let r = spec_register(v, id, pk).restaurants;
    if has_key(v.restaurants, id) {
        let k = idx_of(v.restaurants, id);
        assert(0 <= k < v.restaurants.len() && v.restaurants[k].0 == id);
        assert forall|i: int, j: int| 0 <= i < j < r.len() implies r[i].0 != r[j].0 by {
            assert(v.restaurants[i].0 != v.restaurants[j].0);
        }
    } else {
        assert forall|i: int, j: int| 0 <= i < j < r.len() implies r[i].0 != r[j].0 by {
            if j == r.len() - 1 {
                assert(r[j].0 == id);
                assert(r[i] == v.restaurants[i]);
                assert(!(exists|m: int|
                    0 <= m < v.restaurants.len() && v.restaurants[m].0 == id));
            }
        }
    }
}

/// Registration puts `id -> pk` into the registry, leaves every other
/// registry entry and the whole ledger unchanged, and applying a second
/// registration for the same id leaves the entry at the most recent key.
pub proof fn lemma_register_registers(v: StateView, id: Seq<char>, pk: Seq<u8>)
    requires
        state_wf(v),
    ensures
        state_wf(spec_register(v, id, pk)),
        has_key(spec_register(v, id, pk).restaurants, id),
        val_of(spec_register(v, id, pk).restaurants, id) == pk,
        forall|other: Seq<char>|
            other != id ==> #[trigger] has_key(spec_register(v, id, pk).restaurants, other)
                == has_key(v.restaurants, other),
        forall|other: Seq<char>|
            other != id && has_key(v.restaurants, other) ==> #[trigger] val_of(
                spec_register(v, id, pk).restaurants,
                other,
            ) == val_of(v.restaurants, other),
        spec_register(v, id, pk).reviews == v.reviews,
{
    lemma_register_wf(v, id, pk);
    let r = spec_register(v, id, pk).restaurants;
    if has_key(v.restaurants, id) {
        let k = idx_of(v.restaurants, id);
        assert(0 <= k < v.restaurants.len() && v.restaurants[k].0 == id);
        assert(r[k].0 == id);
        assert(has_key(r, id));
        let k2 = idx_of(r, id);
        assert(0 <= k2 < r.len() && r[k2].0 == id);
        // Uniqueness in the updated list: entries other than k are unchanged.
        assert forall|i: int, j: int| 0 <= i < j < r.len() implies r[i].0 != r[j].0 by {
            assert(v.restaurants[i].0 != v.restaurants[j].0);
        }
        lemma_unique_idx(r, k2, k);
        assert(val_of(r, id) == pk);
        assert forall|other: Seq<char>| other != id implies #[trigger] has_key(r, other)
            == has_key(v.restaurants, other) by {
            if has_key(v.restaurants, other) {
                let m = idx_of(v.restaurants, other);
                assert(m != k);
                assert(r[m].0 == other);
            }
            if has_key(r, other) {
                let m = choose|m: int| 0 <= m < r.len() && r[m].0 == other;
                assert(m != k);
                assert(v.restaurants[m].0 == other);
            }
        }
        assert forall|other: Seq<char>| other != id && has_key(v.restaurants, other) implies
            #[trigger] val_of(r, other) == val_of(v.restaurants, other) by {
            let m = idx_of(v.restaurants, other);
            assert(0 <= m < v.restaurants.len() && v.restaurants[m].0 == other);
            assert(m != k);
            assert(r[m].0 == other);
            let m2 = idx_of(r, other);
            assert(0 <= m2 < r.len() && r[m2].0 == other);
            lemma_unique_idx(r, m2, m);
        }
    } else {
        let k = v.restaurants.len() as int;
        assert(r[k].0 == id);
        assert(has_key(r, id));
        let k2 = idx_of(r, id);
        assert(0 <= k2 < r.len() && r[k2].0 == id);
        assert(state_wf(spec_register(v, id, pk)));
        lemma_unique_idx(r, k2, k);
        assert(val_of(r, id) == pk);
        assert forall|other: Seq<char>| other != id implies #[trigger] has_key(r, other)
            == has_key(v.restaurants, other) by {
            if has_key(v.restaurants, other) {
                let m = idx_of(v.restaurants, other);
                assert(r[m].0 == other);
            }
            if has_key(r, other) {
                let m = choose|m: int| 0 <= m < r.len() && r[m].0 == other;
                assert(m != k);
                assert(v.restaurants[m].0 == other);
            }
        }
        assert forall|other: Seq<char>| other != id && has_key(v.restaurants, other) implies
            #[trigger] val_of(r, other) == val_of(v.restaurants, other) by {
            let m = idx_of(v.restaurants, other);
            assert(r[m].0 == other);
            let m2 = idx_of(r, other);
            assert(0 <= m2 < r.len() && r[m2].0 == other);
            assert(m2 != k);
            lemma_unique_idx(r, m2, m);
        }
    }
}

/// Registering the same id twice is idempotent in the sense that the final
/// registry entry holds the most recently applied key.
pub proof fn lemma_register_latest(v: StateView, id: Seq<char>, pk1: Seq<u8>, pk2: Seq<u8>)
    requires
        state_wf(v),
    ensures
        val_of(spec_register(spec_register(v, id, pk1), id, pk2).restaurants, id) == pk2,
        state_wf(spec_register(spec_register(v, id, pk1), id, pk2)),
{
    lemma_register_registers(v, id, pk1);
    lemma_register_registers(spec_register(v, id, pk1), id, pk2);
}

/// Submitting against an absent restaurant fails and has no effect on the
/// state: `spec_submit` returns nothing to apply.
pub proof fn lemma_submit_absent(v: StateView, id: Seq<char>, rv: ReviewView)
    requires
        !has_key(v.restaurants, id),
    ensures
        spec_submit(v, id, rv) is None,
{
}

/// Submitting against a registered restaurant appends exactly one review to
/// that restaurant's sequence, preserves the prior sequence's order and
/// contents, leaves every other restaurant's reviews unchanged, and leaves
/// the registry unchanged.
pub proof fn lemma_submit_appends(v: StateView, id: Seq<char>, rv: ReviewView)
    requires
        state_wf(v),
        has_key(v.restaurants, id),
    ensures
        spec_submit(v, id, rv) is Some,
        state_wf(spec_submit(v, id, rv)->0),
        spec_submit(v, id, rv)->0.restaurants == v.restaurants,
        reviews_of(spec_submit(v, id, rv)->0, id) == reviews_of(v, id).push(rv),
        forall|other: Seq<char>|
            other != id ==> #[trigger] reviews_of(spec_submit(v, id, rv)->0, other)
                == reviews_of(v, other),
{
    let v2 = spec_submit(v, id, rv)->0;
    assert(v2.reviews =~= v.reviews.push((id, rv)));
    let prid = tag_is(id);
    v.reviews.lemma_filter_push((id, rv), prid);
    assert(v2.reviews.filter(prid) =~= v.reviews.filter(prid).push((id, rv)));
    assert(reviews_of(v2, id) =~= reviews_of(v, id).push(rv));
    assert forall|other: Seq<char>| other != id implies #[trigger] reviews_of(v2, other)
        == reviews_of(v, other) by {
        let pro = tag_is(other);
        v.reviews.lemma_filter_push((id, rv), pro);
        assert(v2.reviews.filter(pro) =~= v.reviews.filter(pro));
        assert(reviews_of(v2, other) =~= reviews_of(v, other));
    }
}

} // verus!
