//! Application-level failures: everything a request can run into on its way
//! through the replay engine, distinguishable by kind so that a transport
//! can log them apart even if it collapses them onto one wire status.

use vstd::prelude::*;

use crate::req_resp::IntoRequestError;
use crate::req_resp::ResponderError;

verus! {

/// One failed replay attempt, as reported to the transport layer.
#[derive(Clone, Copy, Debug, PartialEq, Eq, Structural)]
pub enum AppError {
    /// The incoming request's URL could not be normalized into a key.
    IncomingUrl { source: IntoRequestError },
    /// The shared store's lock could not be taken (poisoning).
    DatabaseLock,
    /// No recorded interaction matches the request's canonical URL.
    RequestLookup,
    /// The key exists, but its selection behaviour yielded no response.
    ResponseLookup,
}

impl From<ResponderError> for AppError {
    /// Lifts a store failure: a missing request becomes `RequestLookup`, a
    /// missing response `ResponseLookup`.
    fn from(error: ResponderError) -> (r: AppError) {
        match error {
            ResponderError::RequestNotFound => AppError::RequestLookup,
            ResponderError::ResponseNotFound => AppError::ResponseLookup,
        }
    }
}

impl vstd::std_specs::convert::FromSpecImpl<ResponderError> for AppError {
    open spec fn obeys_from_spec() -> bool {
        true
    }

    open spec fn from_spec(error: ResponderError) -> AppError {
        match error {
            ResponderError::RequestNotFound => AppError::RequestLookup,
            ResponderError::ResponseNotFound => AppError::ResponseLookup,
        }
    }
}

} // verus!
