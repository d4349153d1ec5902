//! Secret keys of the secp256k1 curve, their x-only public keys and BIP-340
//! Schnorr signatures. The curve arithmetic is done by the `secp256k1`
//! crate; what it computes is named here, not proved.

use vstd::prelude::*;
use crate::digest::{hex_decode, is_hex, hex_bytes};
use crate::error::StegError;

verus! {

/// The error type of the `secp256k1` crate.
#[verifier::external_type_specification]
#[verifier::external_body]
pub struct ExSecpError(secp256k1::Error);

/// The number whose big-endian bytes are `bytes`.
pub open spec fn be_value(bytes: Seq<u8>) -> nat
    decreases bytes.len(),
{
    if bytes.len() == 0 {
        0
    } else {
        be_value(bytes.drop_last()) * 256 + bytes.last() as nat
    }
}

/// The order of the secp256k1 group.
pub open spec fn curve_order() -> nat {
    0xFFFFFFFFFFFFFFFFFFFFFFFFFFFFFFFEBAAEDCE6AF48A03BBFD25E8CD0364141nat
}

/// Whether bytes are a secret key: 32 bytes that, read as a big-endian
/// number, are neither zero nor as large as the group order.
pub open spec fn valid_secret_key(bytes: Seq<u8>) -> bool {
    bytes.len() == 32 && 0 < be_value(bytes) < curve_order()
}

/// The 32-byte x-only public key of a secret key, as libsecp256k1 computes
/// it.
pub uninterp spec fn xonly_pubkey(secret: Seq<u8>) -> Seq<u8>;

/// The 64-byte BIP-340 signature of a 32-byte digest under a secret key,
/// made without auxiliary randomness, as libsecp256k1 computes it.
pub uninterp spec fn schnorr_signature(secret: Seq<u8>, digest: Seq<u8>) -> Seq<u8>;

/// Whether a signature passes BIP-340 verification for a digest under an
/// x-only public key, as libsecp256k1 decides it. It does not where the
/// key, the digest or the signature is not of its form.
pub uninterp spec fn schnorr_verifies(pubkey: Seq<u8>, digest: Seq<u8>, sig: Seq<u8>) -> bool;

/// Calls `SecretKey::from_slice` of the `secp256k1` crate. Trusted: it
/// accepts exactly the valid secret keys, and hands the bytes back.
#[verifier::external_body]
fn check_secret_key(bytes: &[u8]) -> (res: Result<Vec<u8>, secp256k1::Error>)
    ensures
        match res {
            Ok(key) => valid_secret_key(bytes@) && key@ == bytes@,
            Err(_) => !valid_secret_key(bytes@),
        },
{
    secp256k1::SecretKey::from_slice(bytes).map(|key| key.secret_bytes().to_vec())
}

/// Calls `SecretKey::new` of the `secp256k1` crate on the thread-local
/// generator of the `rand` crate. Trusted: what comes back is a valid
/// secret key; nothing else is claimed of it.
#[verifier::external_body]
fn random_secret_key() -> (key: Vec<u8>)
    ensures
        valid_secret_key(key@),
{
    secp256k1::SecretKey::new(&mut rand::thread_rng()).secret_bytes().to_vec()
}

/// Calls `Keypair::x_only_public_key` of the `secp256k1` crate. Trusted:
/// the result is the key named `xonly_pubkey`, 32 bytes long. The crate
/// rejects an invalid secret key, so none is passed.
#[verifier::external_body]
fn derive_xonly(secret: &[u8]) -> (key: Vec<u8>)
    requires
        valid_secret_key(secret@),
    ensures
        key@ == xonly_pubkey(secret@),
        key@.len() == 32,
{
    let secp = secp256k1::Secp256k1::new();
    let pair = secp256k1::Keypair::from_seckey_slice(&secp, secret).unwrap();
    pair.x_only_public_key().0.serialize().to_vec()
}

/// Calls `Secp256k1::sign_schnorr_no_aux_rand` of the `secp256k1` crate.
/// Trusted: the result is the signature named `schnorr_signature`, 64
/// bytes long. The crate rejects an invalid secret key and a digest that is
/// not 32 bytes long, so neither is passed.
#[verifier::external_body]
fn sign_digest(secret: &[u8], digest: &[u8]) -> (sig: Vec<u8>)
    requires
        valid_secret_key(secret@),
        digest@.len() == 32,
    ensures
        sig@ == schnorr_signature(secret@, digest@),
        sig@.len() == 64,
{
    let secp = secp256k1::Secp256k1::new();
    let pair = secp256k1::Keypair::from_seckey_slice(&secp, secret).unwrap();
    let message = secp256k1::Message::from_digest_slice(digest).unwrap();
    secp.sign_schnorr_no_aux_rand(&message, &pair).serialize().to_vec()
}

/// Calls `Secp256k1::verify_schnorr` of the `secp256k1` crate, after its
/// `from_slice` functions took the key, the digest and the signature from
/// their bytes. Trusted: it succeeds exactly where the verification named
/// `schnorr_verifies` does.
#[verifier::external_body]
fn verify_digest(pubkey: &[u8], digest: &[u8], sig: &[u8]) -> (res: Result<(), secp256k1::Error>)
    ensures
        res is Ok <==> schnorr_verifies(pubkey@, digest@, sig@),
{
    let key = secp256k1::XOnlyPublicKey::from_slice(pubkey)?;
    let message = secp256k1::Message::from_digest_slice(digest)?;
    let signature = secp256k1::schnorr::Signature::from_slice(sig)?;
    secp256k1::Secp256k1::verification_only().verify_schnorr(&signature, &message, &key)
}

/// Whether a signature passes BIP-340 verification for a digest under an
/// x-only public key.
pub fn signature_verifies(pubkey: &[u8], digest: &[u8], sig: &[u8]) -> (ok: bool)
    ensures
        ok == schnorr_verifies(pubkey@, digest@, sig@),
{
    match verify_digest(pubkey, digest, sig) {
        Ok(_) => true,
        Err(_) => false,
    }
}

/// A valid secret key. Values are made only by the constructors below, so
/// every value is valid.
pub struct SecretKey {
    bytes: Vec<u8>,
}

impl SecretKey {
    /// What holds of every secret key: its bytes are a valid key.
    #[verifier::type_invariant]
    pub closed spec fn is_valid(&self) -> bool {
        valid_secret_key(self.bytes@)
    }

    /// A key that meets its invariant is a valid secret key.
    pub proof fn lemma_is_valid(&self)
        requires
            self.is_valid(),
        ensures
            valid_secret_key(self@),
    {
    }

    /// The 32 bytes of the key.
    pub closed spec fn view(&self) -> Seq<u8> {
        self.bytes@
    }

    /// Takes 32 bytes as a secret key. Fails with `BadKey` unless they are
    /// a valid secret key.
    pub fn from_bytes(bytes: &[u8]) -> (res: Result<SecretKey, StegError>)
        ensures
            res is Ok <==> valid_secret_key(bytes@),
            res matches Ok(key) ==> key@ == bytes@,
            res matches Err(e) ==> e == StegError::BadKey,
    {
        match check_secret_key(bytes) {
            Ok(key) => Ok(SecretKey { bytes: key }),
            Err(_) => Err(StegError::BadKey),
        }
    }

    /// Reads a secret key from 64 hexadecimal digits. Fails with `BadKey`
    /// unless the text is hexadecimal and stands for a valid secret key.
    pub fn from_hex(text: &str) -> (res: Result<SecretKey, StegError>)
        ensures
            res is Ok <==> is_hex(text@) && valid_secret_key(hex_bytes(text@)),
            res matches Ok(key) ==> key@ == hex_bytes(text@),
            res matches Err(e) ==> e == StegError::BadKey,
    {
        match hex_decode(text) {
            Ok(bytes) => SecretKey::from_bytes(bytes.as_slice()),
            Err(_) => Err(StegError::BadKey),
        }
    }

    /// Draws a fresh secret key from a cryptographically secure source.
    pub fn generate() -> (key: SecretKey)
        ensures
            valid_secret_key(key@),
    {
        SecretKey { bytes: random_secret_key() }
    }

    /// The bytes of the key.
    pub fn secret_bytes(&self) -> (bytes: Vec<u8>)
        ensures
            bytes@ == self@,
            valid_secret_key(self@),
    {
        proof {
            use_type_invariant(self);
        }
        vstd::slice::slice_to_vec(self.bytes.as_slice())
    }

    /// The x-only public key of the key.
    pub fn x_only_public_key(&self) -> (key: Vec<u8>)
        ensures
            key@ == xonly_pubkey(self@),
            key@.len() == 32,
    {
        proof {
            use_type_invariant(self);
        }
        derive_xonly(self.bytes.as_slice())
    }

    /// Signs a 32-byte digest, BIP-340, without auxiliary randomness.
    pub fn sign(&self, digest: &[u8; 32]) -> (sig: Vec<u8>)
        ensures
            sig@ == schnorr_signature(self@, digest@),
            sig@.len() == 64,
    {
        proof {
            use_type_invariant(self);
        }
        sign_digest(self.bytes.as_slice(), digest.as_slice())
    }
}

} // verus!
