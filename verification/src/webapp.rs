//! Shapes describing one managed web application and its remote
//! configuration, and the small transformations performed on listing replies.

use vstd::prelude::*;

verus! {

use crate::share_structs::Properties;

/// One remote key/value pair of a web application's configuration.
pub struct AppserviceEnvVar {
    pub name: String,
    pub value: String,
}

/// One managed web application, identified by its subscription, resource
/// group and name.
pub struct Webapp {
    pub subscription: Option<String>,
    pub name: String,
    pub resource_group: String,
}

impl Webapp {
    /// Unwraps a listing reply's envelopes and stamps every web application
    /// with the subscription it was listed under, which the reply itself does
    /// not carry.
    pub fn attach_subscription(items: Vec<Properties<Webapp>>, subscription: &str) -> (r: Vec<
        Webapp,
    >)
        ensures
            r@.len() == items@.len(),
            forall|i: int|
                0 <= i < r@.len() ==> {
                    &&& (#[trigger] r@[i]).name == items@[i].properties.name
                    &&& r@[i].resource_group == items@[i].properties.resource_group
                    &&& r@[i].subscription is Some
                    &&& r@[i].subscription->0@ == subscription@
                },
    {
        let mut rest = items;
        let ghost orig = rest@;
        let mut r: Vec<Webapp> = Vec::new();
        while rest.len() > 0
            invariant
                rest@ =~= orig.skip(r@.len() as int),
                r@.len() <= orig.len(),
                forall|i: int|
                    0 <= i < r@.len() ==> {
                        &&& (#[trigger] r@[i]).name == orig[i].properties.name
                        &&& r@[i].resource_group == orig[i].properties.resource_group
                        &&& r@[i].subscription is Some
                        &&& r@[i].subscription->0@ == subscription@
                    },
            decreases rest@.len(),
        {
            let p = rest.remove(0);
            proof {
                assert(p == orig[r@.len() as int]);
            }
            let w = Webapp {
                subscription: Some(subscription.to_owned()),
                name: p.properties.name,
                resource_group: p.properties.resource_group,
            };
            r.push(w);
        }
        proof {
            assert(r@.len() == orig.len());
        }
        r
    }
}

} // verus!
