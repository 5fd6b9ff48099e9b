//! The stored client configuration.

use vstd::prelude::*;

verus! {

/// Settings a caller loads from its configuration store before querying
/// the service: the API key that every request must carry.
pub struct Settings {
    pub api_key: String,
}

} // verus!
