//! The error taxonomy that crosses the gateway boundary.
//!
//! Backend-specific diagnostic detail never crosses the boundary: a
//! backing-store connectivity or query failure is always surfaced as the
//! generic `InternalError`.

use vstd::prelude::*;

verus! {

/// Every failure a gateway operation can surface to a caller.
#[derive(Debug, Clone, Copy, PartialEq, Eq, Structural)]
pub enum GatewayError {
    /// The access key is unknown to the registry queried.
    InvalidAccessKeyId,
    /// The access key exists but its account is not enabled for this service.
    NotSignedUp,
    /// The caller has no write permission for the bucket.
    AccessDenied,
    /// Completion was requested while the uploaded parts have a gap.
    InvalidParts,
    /// The upload session does not exist (never created, aborted, or completed).
    NoSuchUpload,
    /// A part number at or above the protocol maximum was used.
    PartNumberOutOfRange,
    /// A backing store could not be reached or queried.
    InternalError,
}

impl GatewayError {
    /// A short description, for callers that need to render the error.
    pub fn message(&self) -> (r: &'static str)
        ensures
            r@ == self.spec_message(),
    {
        match self {
            GatewayError::InvalidAccessKeyId => "invalid access key id",
            GatewayError::NotSignedUp => "account not signed up for this service",
            GatewayError::AccessDenied => "access denied",
            GatewayError::InvalidParts => "invalid parts",
            GatewayError::NoSuchUpload => "no such upload",
            GatewayError::PartNumberOutOfRange => "part number out of range",
            GatewayError::InternalError => "internal error",
        }
    }

    /// What `message` returns, variant by variant.
    pub open spec fn spec_message(self) -> Seq<char> {
        match self {
            GatewayError::InvalidAccessKeyId => "invalid access key id"@,
            GatewayError::NotSignedUp => "account not signed up for this service"@,
            GatewayError::AccessDenied => "access denied"@,
            GatewayError::InvalidParts => "invalid parts"@,
            GatewayError::NoSuchUpload => "no such upload"@,
            GatewayError::PartNumberOutOfRange => "part number out of range"@,
            GatewayError::InternalError => "internal error"@,
        }
    }
}

} // verus!
