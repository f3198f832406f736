//! The ways a fetch can fail.

use vstd::prelude::*;

verus! {

/// Why a fetch did not complete.
#[derive(Debug, Clone, PartialEq, Eq)]
pub enum FetchError {
    /// The transport refused to send the request; the caller may retry.
    Transport,
    /// The remote side answered the request with an error message,
    /// carried here without its leading error marker.
    Remote(String),
    /// A payload in the fetched node did not have the shape a
    /// dependency rule expects; that fetch is abandoned, the resolver
    /// lives on.
    DataShape,
    /// Exclusive access to a shared structure could not be obtained;
    /// callers that guard the cache with a lock should retry.
    LockContention,
    /// A request was already outstanding: the connection carries no
    /// correlation identifiers, so a second in-flight request would make
    /// replies unattributable and is refused.
    Busy,
}

impl FetchError {
    /// A short description of this error; a remote report is carried
    /// through as it stands.
    pub fn describe(&self) -> (r: String)
        ensures
            match self {
                FetchError::Transport => r@ == "transport failure"@,
                FetchError::Remote(msg) => r@ == msg@,
                FetchError::DataShape => r@ == "unexpected payload shape"@,
                FetchError::LockContention => r@ == "shared state unavailable"@,
                FetchError::Busy => r@ == "a request is already in flight"@,
            },
    {
        match self {
            FetchError::Transport => "transport failure".to_owned(),
            FetchError::Remote(msg) => msg.clone(),
            FetchError::DataShape => "unexpected payload shape".to_owned(),
            FetchError::LockContention => "shared state unavailable".to_owned(),
            FetchError::Busy => "a request is already in flight".to_owned(),
        }
    }
}

} // verus!
