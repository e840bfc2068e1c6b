//! The failure kinds of one client session.

use vstd::prelude::*;

verus! {

/// Everything that can go wrong between the operator's menu selection and the
/// rendered answer.  Transport and subprocess failures are raised by the
/// unverified shell around the library; the remaining kinds are produced by
/// the library itself.
#[derive(Clone, Copy, Debug, PartialEq, Eq, Structural)]
pub enum ClientError {
    /// The cookie artifact at the well-known location could not be read.
    CredentialUnavailable,
    /// The HTTP round trip to the node failed outright.
    TransportFailure,
    /// The node answered with a non-2xx HTTP status.
    HttpStatusNotOk,
    /// A response body did not decode into the expected record shape.
    ShapeMismatch,
    /// A supply record carried fewer than the five canonical pools.
    PoolIndexOutOfRange,
    /// An external formatting or classification helper failed.
    SubprocessFailure,
}

} // verus!
