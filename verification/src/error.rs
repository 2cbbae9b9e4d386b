//! The failures this library reports.

use vstd::prelude::*;

verus! {

/// The error of `aws_lc_rs`, which carries no detail.
#[verifier::external_type_specification]
#[verifier::external_body]
pub struct ExUnspecified(aws_lc_rs::error::Unspecified);

/// Why an operation of this library failed.
#[derive(Debug, Clone, Copy, PartialEq, Eq, Structural)]
pub enum Error {
    /// The key handed to `encrypt` cannot be used with the cipher.
    MalformedKey,
    /// A blob could not be opened. Nothing is said of the reason: a wrong key,
    /// a forged or damaged blob and a truncated blob all look alike.
    DecryptionFailed,
    /// A row of serialized vault data holds a prompt without an answer.
    MalformedVaultData,
    /// The secure random number generator did not deliver.
    RngFailure,
}

} // verus!
