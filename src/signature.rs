//! Commit verification: the canonical hash of the commit block checked against the
//! author's key with ECDSA over secp256k1 or P-256.
use vstd::prelude::*;
use crate::canonical::{canonical_of, hash_canonical_commit, is_canonical};
use crate::codec::sha256_of;
use crate::frame::CommitEnvelope;
use k256::ecdsa::signature::hazmat::PrehashVerifier;

verus! {

/// Whether secp256k1 ECDSA accepts signature `sig` (64 bytes, r then s) over the 32-byte
/// digest `prehash` for the SEC1 key `pk`.
pub uninterp spec fn secp256k1_accepts(pk: Seq<u8>, prehash: Seq<u8>, sig: Seq<u8>) -> bool;

/// Whether P-256 ECDSA accepts signature `sig` over the digest `prehash` for the SEC1
/// key `pk`.
pub uninterp spec fn p256_accepts(pk: Seq<u8>, prehash: Seq<u8>, sig: Seq<u8>) -> bool;

/// Relies on `k256::ecdsa::VerifyingKey::from_sec1_bytes`, `Signature::from_slice` and
/// `verify_prehash`: false for a malformed key or signature, else the verdict.
#[verifier::external_body]
fn secp256k1_verify(pk: &[u8; 33], prehash: &[u8; 32], sig: &[u8]) -> (r: bool)
    ensures
        r == secp256k1_accepts(pk@, prehash@, sig@),
{
    match (k256::ecdsa::VerifyingKey::from_sec1_bytes(pk), k256::ecdsa::Signature::from_slice(sig)) {
        (Ok(key), Ok(s)) => key.verify_prehash(prehash, &s).is_ok(),
        _ => false,
    }
}

/// Relies on `p256::ecdsa::VerifyingKey::from_sec1_bytes`, `Signature::from_slice` and
/// `verify_prehash`: false for a malformed key or signature, else the verdict.
#[verifier::external_body]
fn p256_verify(pk: &[u8; 33], prehash: &[u8; 32], sig: &[u8]) -> (r: bool)
    ensures
        r == p256_accepts(pk@, prehash@, sig@),
{
    match (p256::ecdsa::VerifyingKey::from_sec1_bytes(pk), p256::ecdsa::Signature::from_slice(sig)) {
        (Ok(key), Ok(s)) => key.verify_prehash(prehash, &s).is_ok(),
        _ => false,
    }
}

/// The verdict on a signature over a digest for a key of type `key_type` (1 secp256k1,
/// 2 P-256); no other type verifies.
pub open spec fn signature_ok(key_type: u8, pk: Seq<u8>, prehash: Seq<u8>, sig: Seq<u8>) -> bool {
    if key_type == 1 {
        secp256k1_accepts(pk, prehash, sig)
    } else if key_type == 2 {
        p256_accepts(pk, prehash, sig)
    } else {
        false
    }
}

/// Checks signature `sig` over the digest `prehash` with a key of type `key_type`.
pub fn verify_prehash(key_type: u8, pubkey: &[u8; 33], prehash: &[u8; 32], sig: &[u8]) -> (r: bool)
    ensures
        r == signature_ok(key_type, pubkey@, prehash@, sig@),
{
    if key_type == 1 {
        secp256k1_verify(pubkey, prehash, sig)
    } else if key_type == 2 {
        p256_verify(pubkey, prehash, sig)
    } else {
        false
    }
}

/// The signature bytes an envelope carries (none reads as empty).
pub open spec fn sig_bytes(env: CommitEnvelope) -> Seq<u8> {
    match env.signature {
        Some(s) => s@,
        None => Seq::empty(),
    }
}

/// Verifies an envelope's commit: hashes the canonical form of its commit block and
/// checks the envelope's signature over that digest with the given key. False when
/// there is no commit block, it has no canonical form, or the key type is unknown.
pub fn verify_commit(envelope: &CommitEnvelope, pubkey_bytes: &[u8; 33], key_type: u8) -> (r: bool)
    ensures
        envelope.commit is None ==> !r,
        key_type != 1 && key_type != 2 ==> !r,
        r ==> exists|out: Seq<u8>|
            is_canonical(envelope.commit.unwrap()@, out) && signature_ok(
                key_type,
                pubkey_bytes@,
                sha256_of(out),
                sig_bytes(*envelope),
            ),
        r == (envelope.commit is Some && canonical_of(envelope.commit.unwrap()@) is Some && signature_ok(
            key_type,
            pubkey_bytes@,
            sha256_of(canonical_of(envelope.commit.unwrap()@).unwrap()),
            sig_bytes(*envelope),
        )),
{
    let commit_raw = match envelope.commit {
        Some(c) => c,
        None => return false,
    };
    let empty: [u8; 0] = [];
    let sig: &[u8] = match envelope.signature {
        Some(s) => s,
        None => empty.as_slice(),
    };
    assert(sig@ == sig_bytes(*envelope)) by {
        if envelope.signature is None {
            assert(empty@ =~= Seq::<u8>::empty());
        }
    }
    match hash_canonical_commit(commit_raw) {
        None => false,
        Some(h) => verify_prehash(key_type, pubkey_bytes, &h, sig),
    }
}

/// What becomes of a frame after a verification attempt.
#[derive(Clone, Copy, Debug, PartialEq, Eq, Structural)]
pub enum VerifyOutcome {
    /// The signature holds: archive the frame.
    Archive,
    /// It failed on the first try: resolve the key again and retry once.
    Reresolve,
    /// It failed after the retry: record the frame as invalid and do not archive it.
    Invalid,
}

/// Decides what follows a verification: success archives; a first failure asks for the
/// key to be resolved again; a failure after that is final.
pub fn after_verify(ok: bool, retried: bool) -> (r: VerifyOutcome)
    ensures
        ok ==> r == VerifyOutcome::Archive,
        !ok && !retried ==> r == VerifyOutcome::Reresolve,
        !ok && retried ==> r == VerifyOutcome::Invalid,
{
    if ok {
        VerifyOutcome::Archive
    } else if !retried {
        VerifyOutcome::Reresolve
    } else {
        VerifyOutcome::Invalid
    }
}

} // verus!
