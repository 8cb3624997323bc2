//! The query service's place in the library.

use vstd::prelude::*;

verus! {

/// What a request to start the query service came to.
#[derive(Clone, Copy, Debug, PartialEq, Eq, Structural)]
pub enum ServiceStatus {
    /// The command is known, and no service stands behind it: nothing was
    /// bound and nothing was served.
    Unavailable,
}

/// Asks for the query service over the directory `path` at `address`. The
/// service is reserved and not provided, so every request is answered with
/// [`ServiceStatus::Unavailable`], whatever the directory and the address.
pub fn run_server(path: &String, address: &String) -> (status: ServiceStatus)
    ensures
        status == ServiceStatus::Unavailable,
{
    ServiceStatus::Unavailable
}

} // verus!
