//! Cryptographic and storage core of a local password manager.
//!
//! A master password is stretched into a key ([`encrypt::derive_key`]), the key
//! seals and opens individual secrets ([`encrypt::encrypt`],
//! [`encrypt::decrypt`]), and the sealed values are kept as named forms in a
//! [`vault::Vault`], which is written to and read from a flat, line-oriented
//! byte format ([`format`]). New passwords are drawn without bias from an
//! alphabet ([`generate::random_string`]). Secrets live in [`secret::Secret`]
//! buffers, which are wiped before their storage is released.
//!
//! The library reads no file and no terminal: [`session`] holds what an
//! interactive session decides, and leaves reading and printing to its caller.

pub mod bytes;
pub mod encrypt;
pub mod error;
pub mod format;
pub mod generate;
pub mod hex;
pub mod secret;
pub mod session;
pub mod split;
pub mod vault;

use vstd::prelude::*;

verus! {

/// The sum of `left` and `right`.
pub fn add(left: u64, right: u64) -> (sum: u64)
    requires
        left + right <= u64::MAX,
    ensures
        sum == left + right,
{
    left + right
}

} // verus!
