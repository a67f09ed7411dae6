//! Envelope shapes shared by the management endpoints: a listing reply wraps
//! each item in a `properties` object, and collection replies carry the items
//! under `value`.

use vstd::prelude::*;

verus! {

/// A collection reply: the listed items, each inside its envelope.
pub struct ResponseBody<T> {
    pub value: Vec<Properties<T>>,
}

/// The envelope around one item of a reply.
pub struct Properties<T> {
    pub properties: T,
}

} // verus!
