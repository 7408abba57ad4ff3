//! Signing keys and signature checking.  The asymmetric scheme is Ed25519;
//! the calls into `ed25519_dalek` stand behind trusted wrappers, and
//! everything above them is verified.

use vstd::prelude::*;
use crate::bytes::Bytes;
use ed25519_dalek::Signer;
use ed25519_dalek::Verifier;

verus! {

/// The Ed25519 public key derived from a 32-byte secret key.  Key derivation
/// is deterministic, so the result depends on the secret alone.
pub uninterp spec fn pub_key_of(secret: Seq<u8>) -> Seq<u8>;

/// The Ed25519 signature of a message under a 32-byte secret key.  Ed25519
/// signing is deterministic, so the result depends on the arguments alone.
pub uninterp spec fn sig_of(secret: Seq<u8>, msg: Seq<u8>) -> Seq<u8>;

/// Whether Ed25519 verification accepts a signature on a message under a
/// 32-byte public key.  Verification is deterministic.
pub uninterp spec fn sig_valid(public: Seq<u8>, msg: Seq<u8>, sig: Seq<u8>) -> bool;

/// Relies on `ed25519_dalek::SigningKey::from_bytes` and `verifying_key`:
/// from a 32-byte secret, the derived public key, 32 bytes.  Any other
/// length has no key.
#[verifier::external_body]
pub(crate) fn ed25519_public(secret: &[u8]) -> (r: Option<Vec<u8>>)
    ensures
        r is Some <==> secret@.len() == 32,
        r is Some ==> r->Some_0@ == pub_key_of(secret@) && r->Some_0@.len() == 32,
{
    let arr: [u8; 32] = match secret.try_into() {
        Ok(a) => a,
        Err(_) => return None,
    };
    let key = ed25519_dalek::SigningKey::from_bytes(&arr);
    Some(key.verifying_key().to_bytes().to_vec())
}

/// Relies on `ed25519_dalek::SigningKey::sign`: the 64-byte signature of the
/// message under the 32-byte secret, which `VerifyingKey::verify` accepts
/// under the derived public key.
#[verifier::external_body]
pub(crate) fn ed25519_sign(secret: &[u8], msg: &[u8]) -> (r: Option<Vec<u8>>)
    ensures
        r is Some <==> secret@.len() == 32,
        r is Some ==> r->Some_0@ == sig_of(secret@, msg@) && r->Some_0@.len() == 64,
        r is Some ==> sig_valid(pub_key_of(secret@), msg@, sig_of(secret@, msg@)),
{
    let arr: [u8; 32] = match secret.try_into() {
        Ok(a) => a,
        Err(_) => return None,
    };
    let key = ed25519_dalek::SigningKey::from_bytes(&arr);
    let sig = key.sign(msg);
    Some(sig.to_bytes().to_vec())
}

/// Relies on `ed25519_dalek::VerifyingKey::verify` (with
/// `VerifyingKey::from_bytes` and `Signature::from_bytes` to read the
/// arguments): whether the signature is accepted.  A public key that is not
/// 32 bytes or a signature that is not 64 bytes is never accepted.
#[verifier::external_body]
pub(crate) fn ed25519_check(public: &[u8], msg: &[u8], sig: &[u8]) -> (r: bool)
    ensures
        r == (public@.len() == 32 && sig@.len() == 64 && sig_valid(public@, msg@, sig@)),
{
    let pk_arr: [u8; 32] = match public.try_into() {
        Ok(a) => a,
        Err(_) => return false,
    };
    let key = match ed25519_dalek::VerifyingKey::from_bytes(&pk_arr) {
        Ok(k) => k,
        Err(_) => return false,
    };
    let sig_arr: [u8; 64] = match sig.try_into() {
        Ok(a) => a,
        Err(_) => return false,
    };
    let signature = ed25519_dalek::Signature::from_bytes(&sig_arr);
    key.verify(msg, &signature).is_ok()
}

/// Checks a signature over a message under a public key.
pub fn check_signature(public: &Bytes, msg: &[u8], sig: &Bytes) -> (r: bool)
    ensures
        r == (public@.len() == 32 && sig@.len() == 64 && sig_valid(public@, msg@, sig@)),
{
    ed25519_check(public.as_slice(), msg, sig.as_slice())
}

/// A miner's key pair: the secret key and the public key derived from it.
pub struct Keystore {
    secret: Bytes,
    public: Bytes,
}

impl Keystore {
    pub closed spec fn spec_secret(&self) -> Seq<u8> {
        self.secret@
    }

    pub closed spec fn spec_public(&self) -> Seq<u8> {
        self.public@
    }

    /// The public key belongs to the secret key; constructors establish
    /// this and every method keeps it.
    pub open spec fn valid(&self) -> bool {
        &&& self.spec_secret().len() == 32
        &&& self.spec_public() == pub_key_of(self.spec_secret())
        &&& self.spec_public().len() == 32
    }

    /// Builds the key pair of a 32-byte secret key; any other length is
    /// refused.
    pub fn from_secret(secret: Bytes) -> (r: Option<Keystore>)
        ensures
            r is Some <==> secret@.len() == 32,
            r is Some ==> r->Some_0.valid() && r->Some_0.spec_secret() == secret@,
    {
        match ed25519_public(secret.as_slice()) {
            Some(public) => Some(Keystore { secret, public: Bytes::from_vec(public) }),
            None => None,
        }
    }

    pub fn get_public(&self) -> (r: Bytes)
        ensures
            r@ == self.spec_public(),
    {
        self.public.clone()
    }

    /// Signs a message; the result verifies under this key pair's public
    /// key.
    pub fn sign(&self, msg: &[u8]) -> (r: Bytes)
        requires
            self.valid(),
        ensures
            r@ == sig_of(self.spec_secret(), msg@),
            r@.len() == 64,
            sig_valid(self.spec_public(), msg@, r@),
    {
        match ed25519_sign(self.secret.as_slice(), msg) {
            Some(sig) => Bytes::from_vec(sig),
            None => {
                proof {
                    assert(false);
                }
                Bytes::default()
            },
        }
    }
}

impl Clone for Keystore {
    fn clone(&self) -> (res: Self)
        ensures
            res.spec_secret() == self.spec_secret(),
            res.spec_public() == self.spec_public(),
    {
        Keystore { secret: self.secret.clone(), public: self.public.clone() }
    }
}

} // verus!
