use vstd::prelude::*;

verus! {

/// The ways an operation on the store can fail.
#[derive(Clone, Copy, PartialEq, Eq, Structural, Debug)]
pub enum StoreError {
    /// The key-derivation primitive rejected its parameters.
    KeyDerivation,
    /// The cipher failed to encrypt.
    Encryption,
    /// The authentication tag did not verify: wrong password or tampered data.
    AuthenticationFailed,
    /// The envelope is too short to hold a nonce and a salt.
    MalformedEnvelope,
    /// A container or entry path did not resolve.
    NotFound,
    /// The serialized form of a tree could not be decoded.
    SerializationError,
}

} // verus!

pub mod codec;
pub mod cryptman;
pub mod passman;
pub mod session;
