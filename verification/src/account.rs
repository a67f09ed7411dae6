//! Shapes describing the subscriptions an operator may browse. They are
//! produced by the listing collaborator and carried through unchanged.

use vstd::prelude::*;

verus! {

/// Policy details reported for a subscription.
pub struct SubscriptionPolicies {
    pub location_placement_id: String,
    pub quota_id: String,
    pub spending_limit: String,
}

/// One subscription as reported by the management endpoint.
pub struct Subscription {
    pub authorization_source: String,
    pub display_name: String,
    pub id: String,
    pub state: String,
    pub subscription_id: String,
    pub subscription_policies: SubscriptionPolicies,
}

} // verus!
