//! A placeholder tree endpoint kept for compatibility with early clients.

use vstd::prelude::*;

use vstd::string::StringExecFns;

verus! {

/// Response of the placeholder tree endpoint.
pub struct TreeResponse {
    /// A fixed acknowledgement.
    pub data: String,
}

/// A stub service that only acknowledges requests.
pub struct TreeService {}

impl TreeService {
    /// Create the service.
    pub fn new() -> (s: Self) {
        TreeService {  }
    }

    /// Acknowledge a request.
    pub fn add_to_tree(&self) -> (r: TreeResponse)
        ensures
            r.data@ == "ok"@,
    {
        TreeResponse { data: String::from_str("ok") }
    }
}

} // verus!
