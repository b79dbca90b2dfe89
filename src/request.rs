//! What a client sends to store one key.
use vstd::prelude::*;

verus! {

/// A request to set `key` to `value`.
pub struct SetRequest {
    pub key: String,
    pub value: String,
}

} // verus!
