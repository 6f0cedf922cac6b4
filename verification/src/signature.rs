//! Ed25519 signature checks of Matrix events (consensus-critical rules of
//! the `ed25519_consensus` crate).
use ed25519_consensus::{Signature, VerificationKey};
use vstd::prelude::*;

verus! {

#[verifier::external_type_specification]
#[verifier::external_body]
pub struct ExVerificationKey(VerificationKey);

#[verifier::external_type_specification]
#[verifier::external_body]
pub struct ExEd25519Error(ed25519_consensus::Error);

/// Whether 32 bytes decode to a point of the Edwards curve, i.e. are
/// accepted as a verification key by `ed25519_consensus`.
pub uninterp spec fn ed25519_key_decodes(public_key: Seq<u8>) -> bool;

/// `VerificationKey::try_from([u8; 32])` of `ed25519_consensus`: decodes
/// the compressed Edwards point. The contract claims that it succeeds
/// exactly when the bytes decode, which is a function of the bytes alone;
/// the key it returns is opaque here.
#[verifier::external_body]
fn decode_verification_key(public_key: [u8; 32]) -> (r: Result<VerificationKey, ed25519_consensus::Error>)
    ensures
        r is Ok <==> ed25519_key_decodes(public_key@),
{
    VerificationKey::try_from(public_key)
}

/// Whether `ed25519_consensus` accepts `signature` over `message` under the
/// key that `public_key` decodes to: the ZIP 215 verification of
/// `VerificationKey::verify`, a function of the three byte strings.
pub uninterp spec fn ed25519_signature_verifies(public_key: Seq<u8>, signature: Seq<u8>, message: Seq<u8>) -> bool;

/// `VerificationKey::try_from([u8; 32])`, `Signature::from([u8; 64])` and
/// `VerificationKey::verify` of `ed25519_consensus`, in that order: decodes
/// the key, splits the signature into its halves and runs the ZIP 215
/// check. The contract claims that the result is `Ok` exactly when the key
/// decodes and the signature verifies, a function of the three byte
/// strings; none of the three calls panics.
#[verifier::external_body]
fn ed25519_verify(public_key: [u8; 32], signature: [u8; 64], message: &[u8]) -> (r: Result<(), ed25519_consensus::Error>)
    ensures
        r is Ok <==> (ed25519_key_decodes(public_key@) && ed25519_signature_verifies(public_key@, signature@, message@)),
{
    match VerificationKey::try_from(public_key) {
        Ok(key) => key.verify(&Signature::from(signature), message),
        Err(e) => Err(e),
    }
}

/// Why a signature check failed.
#[derive(Debug, Clone, Copy, PartialEq, Eq, Structural)]
pub enum SignatureError {
    /// The public key bytes are not a valid curve point.
    InvalidPublicKey,
    /// The signature does not verify over the message.
    VerificationFailed,
}

/// Checks an Ed25519 signature over `message` with `public_key`.
/// An invalid key is reported as `InvalidPublicKey`, a signature that does
/// not verify as `VerificationFailed`. On success the signature has been
/// confirmed through `verify_signature`.
pub fn check_signature(public_key: &[u8; 32], message: &[u8], signature: &[u8; 64]) -> (r: Result<
    (),
    SignatureError,
>)
    ensures
        r is Ok <==> ed25519_key_decodes(public_key@) && ed25519_signature_verifies(
            public_key@,
            signature@,
            message@,
        ),
        r == Err::<(), SignatureError>(SignatureError::InvalidPublicKey) <==> !ed25519_key_decodes(
            public_key@,
        ),
        r == Err::<(), SignatureError>(SignatureError::VerificationFailed) <==> ed25519_key_decodes(
            public_key@,
        ) && !ed25519_signature_verifies(public_key@, signature@, message@),
{
    if decode_verification_key(*public_key).is_err() {
        return Err(SignatureError::InvalidPublicKey);
    }
    match ed25519_verify(*public_key, *signature, message) {
        Ok(()) => {
            verify_signature(public_key, message, signature);
            Ok(())
        },
        Err(_) => Err(SignatureError::VerificationFailed),
    }
}

/// Verifies an Ed25519 signature over `message` with `public_key`.
/// It is only to be called with a key that decodes and a signature that
/// verifies: an invalid key or signature is a fatal error for the caller,
/// which `requires` rules out; `check_signature` tests both and reports
/// which one failed.
pub fn verify_signature(public_key: &[u8; 32], message: &[u8], signature: &[u8; 64])
    requires
        ed25519_key_decodes(public_key@),
        ed25519_signature_verifies(public_key@, signature@, message@),
{
    let r = ed25519_verify(*public_key, *signature, message);
    assert(r is Ok);
}

} // verus!
