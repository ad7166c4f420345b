//! The error kinds a lifecycle operation can end in.

use vstd::prelude::*;
use vstd::string::StringExecFns;

verus! {

/// Why an operation failed. `NetworkOrProviderError` carries the
/// provider's response body verbatim, for diagnosis.
pub enum AuthError {
    /// The configuration file does not exist.
    ConfigMissing,
    /// The configuration file has no entry for the selected profile.
    ProfileNotFound,
    /// No credential record exists for the selected profile.
    TokenFileNotFound,
    /// An exchange with the provider failed; the payload is the
    /// provider's response body.
    NetworkOrProviderError(String),
    /// The stored credential has no refresh token, so it cannot be
    /// refreshed; only a new device login can replace it.
    MissingRefreshToken,
}

impl AuthError {
    /// A short human-readable description of the failure.
    pub fn message(&self) -> (r: String)
        ensures
            match self {
                AuthError::ConfigMissing => r@ == "config file not found"@,
                AuthError::ProfileNotFound => r@ == "auth profile not found in config"@,
                AuthError::TokenFileNotFound => r@ == "no token file for profile"@,
                AuthError::NetworkOrProviderError(body) => r@ == "provider error: "@ + body@,
                AuthError::MissingRefreshToken => r@ == "missing refresh token"@,
            },
    {
        match self {
            AuthError::ConfigMissing => "config file not found".to_owned(),
            AuthError::ProfileNotFound => "auth profile not found in config".to_owned(),
            AuthError::TokenFileNotFound => "no token file for profile".to_owned(),
            AuthError::NetworkOrProviderError(body) => {
                let mut m = "provider error: ".to_owned();
                m.append(body.as_str());
                m
            },
            AuthError::MissingRefreshToken => "missing refresh token".to_owned(),
        }
    }
}

} // verus!
