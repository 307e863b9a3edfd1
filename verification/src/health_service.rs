//! Liveness reporting for the host.

use vstd::prelude::*;

use vstd::string::StringExecFns;

verus! {

/// Response of the health endpoint.
pub struct HealthResponse {
    /// The service status.
    pub status: String,
}

/// Reports whether the service is up.
pub struct HealthService {}

impl HealthService {
    /// Create the service.
    pub fn new() -> (s: Self) {
        HealthService {  }
    }

    /// The service status: always healthy while the process runs.
    pub fn health_check(&self) -> (r: HealthResponse)
        ensures
            r.status@ == "healthy"@,
    {
        HealthResponse { status: String::from_str("healthy") }
    }
}

} // verus!
