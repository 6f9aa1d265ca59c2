//! Terminal request errors and the client-visible status each maps to.

use vstd::prelude::*;

verus! {

/// The three terminal failures of the request pipeline. None is retried
/// internally; each maps to a client-visible status at the boundary.
#[derive(Clone, Copy, Debug, PartialEq, Eq, Structural)]
pub enum PipelineError {
    /// No registered prefix matches the request path.
    RouteNotFound,
    /// An authenticated route was hit without a usable `Authorization` header.
    AuthenticationRequired,
    /// The selection attempt budget ran out with no available address.
    NoHealthyBackend,
}

impl PipelineError {
    /// The HTTP-status-like code the boundary layer surfaces for this error.
    pub open spec fn spec_status_code(self) -> u16 {
        match self {
            PipelineError::RouteNotFound => 404,
            PipelineError::AuthenticationRequired => 401,
            PipelineError::NoHealthyBackend => 502,
        }
    }

    pub fn status_code(&self) -> (c: u16)
        ensures
            c == self.spec_status_code(),
    {
        match self {
            PipelineError::RouteNotFound => 404,
            PipelineError::AuthenticationRequired => 401,
            PipelineError::NoHealthyBackend => 502,
        }
    }

    /// A human-readable reason string for the boundary layer.
    pub fn reason(&self) -> (r: &'static str)
        ensures
            self is RouteNotFound ==> r@ == "No matching path found"@,
            self is AuthenticationRequired ==> r@ == "Authorization token required"@,
            self is NoHealthyBackend ==> r@ == "No healthy backend available"@,
    {
        match self {
            PipelineError::RouteNotFound => "No matching path found",
            PipelineError::AuthenticationRequired => "Authorization token required",
            PipelineError::NoHealthyBackend => "No healthy backend available",
        }
    }
}

} // verus!
