//! Key material, signing and digests.
//!
//! Ed25519 signing and Blake3-256 digests come from outside crates and are
//! reached only through the trusted wrappers below; everything that decides
//! on their results is verified.
use vstd::prelude::*;

use crate::errors::KelError;

verus! {

/// Whether `sig` is a valid Ed25519 signature by the key `pk` over `msg`.
/// The result of `keri_core::keys::PublicKey::verify_ed`, which depends on
/// its three arguments alone.
pub uninterp spec fn sig_valid(pk: Seq<u8>, msg: Seq<u8>, sig: Seq<u8>) -> bool;

/// The Blake3-256 digest of `data`, as computed by
/// `said::derivation::HashFunction::digest`: a function of the bytes alone.
pub uninterp spec fn digest_of(data: Seq<u8>) -> Seq<u8>;

/// Declares `keri_core::signer::Signer`, the holder of an Ed25519 key
/// pair, so key pairs can live in verified fields; its values stay opaque.
#[verifier::external_type_specification]
#[verifier::external_body]
pub struct ExSigner(keri_core::signer::Signer);

/// Relies on `said::derivation::HashFunction::digest` with the Blake3-256
/// code: a 32-byte digest that depends on the input bytes alone.
#[verifier::external_body]
pub(crate) fn digest_bytes(data: &[u8]) -> (r: Vec<u8>)
    ensures
        r@ == digest_of(data@),
        r@.len() == 32,
{
    said::derivation::HashFunction::from(said::derivation::HashFunctionCode::Blake3_256)
        .digest(data)
}

/// Relies on `keri_core::keys::PublicKey::verify_ed`, which decides whether
/// `sig` is a valid Ed25519 signature over `msg` by the 32-byte key `pk`;
/// it panics on keys of any other length, hence the precondition.
#[verifier::external_body]
pub(crate) fn verify_sig(pk: &Vec<u8>, msg: &[u8], sig: &[u8]) -> (r: bool)
    requires
        pk@.len() == 32,
    ensures
        r == sig_valid(pk@, msg@, sig@),
{
    keri_core::keys::PublicKey::new(pk.clone()).verify_ed(msg, sig)
}

/// A live Ed25519 key pair: the private half stays inside `signer`; `pk`
/// is the matching 32-byte public key. Only `fresh_keypair` builds one, so
/// the two halves always belong together.
pub struct KeyPair {
    signer: keri_core::signer::Signer,
    pk: Vec<u8>,
}

impl KeyPair {
    /// The public half of this key pair.
    pub closed spec fn spec_pk(&self) -> Seq<u8> {
        self.pk@
    }

    pub fn public_key(&self) -> (r: &Vec<u8>)
        ensures
            r@ == self.spec_pk(),
    {
        &self.pk
    }

    /// Relies on `keri_core::signer::Signer::new`: a fresh random Ed25519
    /// key pair whose public half is 32 bytes.
    #[verifier::external_body]
    pub(crate) fn fresh() -> (r: KeyPair)
        ensures
            r.spec_pk().len() == 32,
    {
        let signer = keri_core::signer::Signer::new();
        let pk = signer.public_key().key();
        KeyPair { signer, pk }
    }

    /// Relies on `keri_core::signer::Signer::sign`: an Ed25519 signature by
    /// this pair's private key, so it verifies under this pair's public key.
    #[verifier::external_body]
    pub(crate) fn sign(&self, msg: &[u8]) -> (r: Result<Vec<u8>, KelError>)
        ensures
            r matches Ok(sig) ==> sig_valid(self.spec_pk(), msg@, sig@),
    {
        match self.signer.sign(msg) {
            Ok(sig) => Ok(sig),
            Err(_) => Err(KelError::SigningFailed),
        }
    }
}

/// Holds the current signing key pair and the pre-rotated next key pair.
/// Rotation is two-phase: a fresh pair is staged first, and the pre-rotated
/// pair is only promoted to current by `commit_rotation`, after the rotation
/// event that reveals it has been accepted and stored.
pub struct KeyManager {
    current: KeyPair,
    next: KeyPair,
}

impl KeyManager {
    /// The public key that signs events now.
    pub closed spec fn current_pk(&self) -> Seq<u8> {
        self.current.spec_pk()
    }

    /// The public key committed to (by digest) for the next rotation.
    pub closed spec fn next_pk(&self) -> Seq<u8> {
        self.next.spec_pk()
    }

    /// Both halves hold proper 32-byte Ed25519 public keys.
    pub closed spec fn wf(&self) -> bool {
        &&& self.current.spec_pk().len() == 32
        &&& self.next.spec_pk().len() == 32
    }

    /// A well-formed key manager holds 32-byte public halves.
    pub proof fn lemma_wf_key_lengths(&self)
        requires
            self.wf(),
        ensures
            self.current_pk().len() == 32,
            self.next_pk().len() == 32,
    {
    }

    pub fn new() -> (r: KeyManager)
        ensures
            r.wf(),
    {
        KeyManager { current: KeyPair::fresh(), next: KeyPair::fresh() }
    }

    pub fn current_public_key(&self) -> (r: &Vec<u8>)
        ensures
            r@ == self.current_pk(),
    {
        self.current.public_key()
    }

    pub fn next_public_key(&self) -> (r: &Vec<u8>)
        ensures
            r@ == self.next_pk(),
    {
        self.next.public_key()
    }

    /// Sign `msg` with the current key.
    pub fn sign(&self, msg: &[u8]) -> (r: Result<Vec<u8>, KelError>)
        ensures
            r matches Ok(sig) ==> sig_valid(self.current_pk(), msg@, sig@),
            r matches Err(e) ==> e == KelError::SigningFailed,
    {
        match self.current.sign(msg) {
            Ok(sig) => Ok(sig),
            Err(_) => Err(KelError::SigningFailed),
        }
    }

    /// Sign `msg` with the pre-rotated next key: a rotation event is signed
    /// by the keys it reveals, not by the keys it retires.
    pub fn sign_with_next(&self, msg: &[u8]) -> (r: Result<Vec<u8>, KelError>)
        ensures
            r matches Ok(sig) ==> sig_valid(self.next_pk(), msg@, sig@),
            r matches Err(e) ==> e == KelError::SigningFailed,
    {
        match self.next.sign(msg) {
            Ok(sig) => Ok(sig),
            Err(_) => Err(KelError::SigningFailed),
        }
    }

    /// Promote the pre-rotated pair to current and stage `staged` as the new
    /// next pair. Called only after the rotation event is durably accepted.
    pub(crate) fn commit_rotation(&mut self, staged: KeyPair)
        ensures
            final(self).current_pk() == old(self).next_pk(),
            final(self).next_pk() == staged.spec_pk(),
            old(self).wf() && staged.spec_pk().len() == 32 ==> final(self).wf(),
    {
        core::mem::swap(&mut self.current, &mut self.next);
        self.next = staged;
    }
}

} // verus!
