//! Signed approvals with Ed25519. The approver identity is the 32-byte
//! verifying key; the signature covers [`Approval::message`].
//!
//! This is the flavor that leaves the canister: a signed approval is a
//! bearer record, checkable by anyone holding the policy.

use crate::approval::{message_bytes, Approval, ApprovalView, Approver, Decision};
use crate::subject::{Subject, SubjectView};
use crate::Error;
use ed25519_dalek::Signer;
use vstd::prelude::*;
use vstd::slice::slice_to_vec;

/// The `ed25519-dalek` types this module's signatures are written in, so a
/// caller building a `SigningKey` gets the very type [`sign`] takes.
pub use ed25519_dalek::{Signature, SigningKey, VerifyingKey};

verus! {

#[verifier::external_type_specification]
#[verifier::external_body]
pub struct ExSigningKey(ed25519_dalek::SigningKey);

/// Whether strict Ed25519 verification accepts `signature` on `message`
/// under the verifying key encoded by `key`.
pub uninterp spec fn ed25519_strict_accepts(key: Seq<u8>, message: Seq<u8>, signature: Seq<u8>) -> bool;

/// The encoded verifying key of the signing key with secret `seed`.
pub uninterp spec fn ed25519_public_key(seed: Seq<u8>) -> Seq<u8>;

/// The Ed25519 signature by the signing key with secret `seed` on `message`.
pub uninterp spec fn ed25519_signature(seed: Seq<u8>, message: Seq<u8>) -> Seq<u8>;

/// Whether `a` carries a signature that verifies, strictly, against its
/// approver key and its message about `subject`.
pub open spec fn signature_accepted(subject: SubjectView, a: ApprovalView) -> bool {
    match a.signature {
        Some(sig) => ed25519_strict_accepts(a.approver, message_bytes(a, subject), sig),
        None => false,
    }
}

/// `VerifyingKey::verify_strict`, reached from raw bytes: the key bytes go
/// through `VerifyingKey::try_from` and the signature bytes through
/// `Signature::from_slice`; a conversion that fails is a refusal. The result
/// is named by [`ed25519_strict_accepts`]; the source also shows that only a
/// 32-byte key and a 64-byte signature can be accepted.
#[verifier::external_body]
fn verify_strict_bytes(key: &[u8], message: &[u8], signature: &[u8]) -> (ok: bool)
    ensures
        ok == ed25519_strict_accepts(key@, message@, signature@),
        ok ==> key@.len() == 32 && signature@.len() == 64,
{
    match (VerifyingKey::try_from(key), Signature::from_slice(signature)) {
        (Ok(k), Ok(s)) => k.verify_strict(message, &s).is_ok(),
        _ => false,
    }
}

/// The 32-byte secret a signing key holds.
pub uninterp spec fn ed25519_secret_of(key: SigningKey) -> Seq<u8>;

/// `SigningKey::to_bytes`: the key's stored 32-byte secret, named by
/// [`ed25519_secret_of`].
#[verifier::external_body]
fn signing_seed(key: &SigningKey) -> (seed: [u8; 32])
    ensures
        seed@ == ed25519_secret_of(*key),
{
    key.to_bytes()
}

/// `SigningKey::verifying_key`, for the key rebuilt from its secret by
/// `SigningKey::from_bytes`, encoded by `VerifyingKey::to_bytes`; named by
/// [`ed25519_public_key`].
#[verifier::external_body]
fn public_key_of(seed: &[u8; 32]) -> (key: [u8; 32])
    ensures
        key@ == ed25519_public_key(seed@),
{
    SigningKey::from_bytes(seed).verifying_key().to_bytes()
}

/// `Signer::sign` by the key rebuilt from its secret by
/// `SigningKey::from_bytes`, encoded by `Signature::to_bytes`; named by
/// [`ed25519_signature`] (Ed25519 signing is deterministic).
#[verifier::external_body]
fn sign_with(seed: &[u8; 32], message: &[u8]) -> (sig: [u8; 64])
    ensures
        sig@ == ed25519_signature(seed@, message@),
{
    SigningKey::from_bytes(seed).sign(message).to_bytes()
}

/// Produce the approval signed by the signing key whose 32-byte secret is
/// `secret`: its approver is that key's verifying key, and its signature is
/// that key's signature on the approval's message about `subject`.
pub fn sign_with_secret(subject: &Subject, secret: &[u8; 32], decision: Decision, at_ns: u64) -> (a: Approval)
    ensures
        a@.decision == decision,
        a@.at_ns == at_ns,
        a@.approver == ed25519_public_key(secret@),
        a@.approver.len() == 32,
        a@.signature == Some(ed25519_signature(secret@, message_bytes(a@, subject@))),
        a@.signature->0.len() == 64,
{
    let public = public_key_of(secret);
    let mut a = Approval::new(Approver::from_bytes(public.as_slice()), decision, at_ns);
    let m = a.message(subject);
    let sig = sign_with(secret, m.as_slice());
    a.signature = Some(slice_to_vec(sig.as_slice()));
    a
}

/// Produce a signed approval. For clients, tests, and off-chain attesters.
///
/// The approval is the one [`sign_with_secret`] produces for `key`'s
/// secret: its approver is `key`'s verifying key and its signature is
/// `key`'s signature on the approval's message about `subject`.
pub fn sign(subject: &Subject, key: &SigningKey, decision: Decision, at_ns: u64) -> (a: Approval)
    ensures
        a@.decision == decision,
        a@.at_ns == at_ns,
        a@.approver == ed25519_public_key(ed25519_secret_of(*key)),
        a@.approver.len() == 32,
        a@.signature == Some(
            ed25519_signature(ed25519_secret_of(*key), message_bytes(a@, subject@)),
        ),
        a@.signature->0.len() == 64,
{
    let secret = signing_seed(key);
    sign_with_secret(subject, &secret, decision, at_ns)
}

/// Check an approval's signature against its approver key and the subject.
///
/// Strict verification: a small-order (weak) key or `R` is refused. Under
/// plain verification a policy listing the identity point would accept one
/// fixed signature for every message.
pub fn verify(subject: &Subject, approval: &Approval) -> (r: Result<(), Error>)
    ensures
        approval@.signature is None ==> r == Err::<(), Error>(Error::MissingSignature),
        approval@.signature is Some ==> (r is Ok <==> signature_accepted(subject@, approval@)),
        approval@.signature is Some && r is Err ==> r == Err::<(), Error>(Error::InvalidSignature),
        r is Ok ==> approval@.approver.len() == 32 && approval@.signature->0.len() == 64,
{
    match &approval.signature {
        None => Err(Error::MissingSignature),
        Some(sig) => {
            let m = approval.message(subject);
            if verify_strict_bytes(approval.approver.as_bytes(), m.as_slice(), sig.as_slice()) {
                Ok(())
            } else {
                Err(Error::InvalidSignature)
            }
        },
    }
}

} // verus!
