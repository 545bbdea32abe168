use did_mmap_cache::canonical::hash_canonical_commit;
use did_mmap_cache::commit::{parse_commit_block, ParsedCommit};
use did_mmap_cache::frame::CommitEnvelope;
use did_mmap_cache::monitor::{ErrorType, EventCounts};
use did_mmap_cache::signature::{after_verify, verify_commit, verify_prehash, VerifyOutcome};
use k256::ecdsa::signature::hazmat::PrehashSigner;

fn envelope<'a>(commit: &'a [u8], sig: &'a [u8]) -> CommitEnvelope<'a> {
    CommitEnvelope {
        did: None,
        sequence: None,
        signature: Some(sig),
        t: None,
        op: None,
        raw: &[],
        blocks: None,
        commit: Some(commit),
        cid: None,
        record_cid: None,
        ops: vec![],
        source_type: "test",
    }
}

#[test]
fn test_ci3_crypto_integration() {
    let signing_key = k256::ecdsa::SigningKey::from_slice(&[7u8; 32]).unwrap();
    let verifying_key = signing_key.verifying_key();
    let pubkey_bytes: [u8; 33] = verifying_key.to_sec1_bytes().as_ref().try_into().unwrap();
    let commit_raw = [0xa1, 0x63, b'p', b'a', b'y', 0x63, b'l', b'o', b'a', b'd'];
    let hash = hash_canonical_commit(&commit_raw).unwrap();
    let sig_for_hash: k256::ecdsa::Signature = signing_key.sign_prehash(&hash).unwrap();
    let sig_bytes_for_hash = sig_for_hash.to_bytes();
    let env = envelope(&commit_raw, &sig_bytes_for_hash);
    assert!(verify_commit(&env, &pubkey_bytes, 1), "Secp256k1 verification failed");
    assert!(!verify_commit(&env, &pubkey_bytes, 2));
    assert!(!verify_commit(&env, &pubkey_bytes, 9));
    let other = [0xa1, 0x63, b'p', b'a', b'y', 0x63, b'l', b'o', b'b'];
    assert!(!verify_commit(&envelope(&other, &sig_bytes_for_hash), &pubkey_bytes, 1));
}

#[test]
fn p256_signatures_verify() {
    let signing_key = p256::ecdsa::SigningKey::from_slice(&[9u8; 32]).unwrap();
    let pk: [u8; 33] = signing_key.verifying_key().to_encoded_point(true).as_bytes().try_into().unwrap();
    let digest = [5u8; 32];
    let sig: p256::ecdsa::Signature = signing_key.sign_prehash(&digest).unwrap();
    assert!(verify_prehash(2, &pk, &digest, &sig.to_bytes()));
    assert!(!verify_prehash(2, &pk, &[6u8; 32], &sig.to_bytes()));
    assert!(!verify_prehash(1, &pk, &digest, &sig.to_bytes()));
    assert!(!verify_prehash(2, &pk, &digest, &[0u8; 3]));
}

#[test]
fn commit_fields_are_read() {
    // {"did": "did:x", "rev": "3k", "sig": h'0102', "version": 3, "data": 42(h'00aa'), "prev": null}
    let mut b = vec![0xa6];
    b.extend_from_slice(&[0x63, b'd', b'i', b'd', 0x65, b'd', b'i', b'd', b':', b'x']);
    b.extend_from_slice(&[0x63, b'r', b'e', b'v', 0x62, b'3', b'k']);
    b.extend_from_slice(&[0x63, b's', b'i', b'g', 0x42, 0x01, 0x02]);
    b.extend_from_slice(&[0x67, b'v', b'e', b'r', b's', b'i', b'o', b'n', 0x03]);
    b.extend_from_slice(&[0x64, b'd', b'a', b't', b'a', 0xd8, 0x2a, 0x42, 0x00, 0xaa]);
    b.extend_from_slice(&[0x64, b'p', b'r', b'e', b'v', 0xf6]);
    let p = parse_commit_block(&b);
    assert_eq!(p.did.as_deref(), Some("did:x"));
    assert_eq!(p.rev.as_deref(), Some("3k"));
    assert_eq!(p.sig, Some(vec![1, 2]));
    assert_eq!(p.version, Some(3));
    assert_eq!(p.data, Some(vec![0x00, 0xaa]));
    assert_eq!(p.prev, Some(None));
    let mut wrapped = vec![0x58, b.len() as u8];
    wrapped.extend_from_slice(&b);
    assert_eq!(parse_commit_block(&wrapped).did.as_deref(), Some("did:x"));
    let empty = ParsedCommit::new();
    assert!(empty.did.is_none() && empty.sig.is_none());
    assert!(parse_commit_block(&[0x01]).did.is_none());
    assert!(parse_commit_block(&[]).version.is_none());
}

#[test]
fn event_counts_by_outcome() {
    let mut c = EventCounts::new();
    c.record_event(true, None, Some(1));
    c.record_event(true, None, Some(2));
    c.record_event(false, Some(ErrorType::InvalidSignature), None);
    c.record_event(false, Some(ErrorType::MissingKey), None);
    c.record_event(false, Some(ErrorType::MalformedCbor), None);
    assert_eq!((c.total, c.verified, c.k256_count, c.p256_count), (5, 2, 1, 1));
    assert_eq!((c.failed_sig, c.failed_missing, c.failed_other), (1, 1, 1));
}

#[test]
fn failed_verification_is_retried_once() {
    assert_eq!(after_verify(true, false), VerifyOutcome::Archive);
    assert_eq!(after_verify(false, false), VerifyOutcome::Reresolve);
    assert_eq!(after_verify(false, true), VerifyOutcome::Invalid);
    assert_eq!(after_verify(true, true), VerifyOutcome::Archive);
}
