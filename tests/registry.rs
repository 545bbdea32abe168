use base64::Engine;
use did_mmap_cache::dedup::DedupWindow;
use did_mmap_cache::ledger::{penalty_secs, PdsEntry, PdsLedger};
use did_mmap_cache::resolver::{
    did_key_to_raw_pubkey, did_web_url, jwk_to_raw_pubkey, multibase_to_raw_pubkey, resolve_did, DidResolution, PendingResolutions,
};

#[test]
fn test_did_web_transform() {
    let did = "did:web:example.com";
    let url = did_web_url(did).unwrap();
    assert_eq!(url, "https://example.com/.well-known/did.json");

    let did2 = "did:web:example.com:user:alice";
    let url2 = did_web_url(did2).unwrap();
    assert_eq!(url2, "https://example.com/user/alice/did.json");
}

#[test]
fn test_sc4_plc_backoff_logic() {
    let base_delay = 2;
    let delay_3 = base_delay * 2u64.pow(3);
    assert_eq!(delay_3, 16);
    assert_eq!(penalty_secs(3), 30 * 2u64.pow(3));
}

#[test]
fn penalty_schedule_doubles_and_caps() {
    assert_eq!(penalty_secs(0), 30);
    assert_eq!(penalty_secs(1), 60);
    assert_eq!(penalty_secs(6), 1920);
    assert_eq!(penalty_secs(7), 3600);
    assert_eq!(penalty_secs(100), 3600);
    let mut e = PdsEntry::new("wss://pds.example.com").unwrap();
    for n in 1..=9u32 {
        e.record_failure(1_000);
        assert_eq!(e.fail_count, n);
        assert_eq!(e.penalty_until - 1_000, std::cmp::min(30 * 2u64.pow(std::cmp::min(n, 7)), 3600));
        assert!(e.is_penalized(1_000));
    }
    e.record_success(5_000);
    assert_eq!(e.fail_count, 0);
    assert_eq!(e.penalty_until, 0);
    assert_eq!(e.last_success, 5_000);
    assert!(!e.is_penalized(5_000));
}

#[test]
fn registry_records_and_growth() {
    assert!(PdsEntry::new(&"x".repeat(200)).is_none());
    assert!(PdsEntry::new("bad\u{1b}url").is_none());
    let e = PdsEntry::new("https://a.example").unwrap();
    assert_eq!(e.get_url(), "https://a.example");
    let mut ledger = PdsLedger::with_capacity(1);
    assert_eq!(ledger.entry_count(), 0);
    assert_eq!(ledger.append(&e), 0);
    assert_eq!(ledger.entry_count(), 1);
    let f = PdsEntry::new("https://b.example").unwrap();
    assert_eq!(ledger.append(&f), 1);
    assert_eq!(ledger.get_entry(1).unwrap().get_url(), "https://b.example");
    assert!(ledger.get_entry(5000).is_none());
}

#[test]
fn keys_decode_from_multibase_did_key_and_jwk() {
    let mut raw = vec![0xe7, 0x01];
    raw.extend_from_slice(&[0x02; 33]);
    let text = format!("z{}", bs58::encode(&raw).into_string());
    let (pk, kt) = multibase_to_raw_pubkey(&text).unwrap();
    assert_eq!(pk, [0x02; 33]);
    assert_eq!(kt, 1);
    let (pk2, kt2) = did_key_to_raw_pubkey(&format!("did:key:{}", text)).unwrap();
    assert_eq!((pk2, kt2), (pk, kt));
    assert!(did_key_to_raw_pubkey("did:key:abc").is_none());
    assert!(multibase_to_raw_pubkey("z1").is_none());
    let x = base64::engine::general_purpose::URL_SAFE_NO_PAD.encode([5u8; 32]);
    let y = base64::engine::general_purpose::URL_SAFE_NO_PAD.encode([3u8; 32]);
    let (jk, jt) = jwk_to_raw_pubkey("EC", "P-256", &x, &y).unwrap();
    assert_eq!(jt, 2);
    assert_eq!(jk[0], 0x03);
    assert_eq!(&jk[1..], &[5u8; 32]);
    assert!(jwk_to_raw_pubkey("RSA", "P-256", &x, &y).is_none());
    match resolve_did("did:plc:abc") {
        DidResolution::Fetch(u) => assert_eq!(u, "https://plc.directory/did:plc:abc/log/last"),
        _ => panic!("expected a fetch"),
    }
    match resolve_did(&format!("did:key:{}", text)) {
        DidResolution::Key(k, t) => assert_eq!((k, t), (pk, kt)),
        _ => panic!("expected a key"),
    }
    assert!(matches!(resolve_did("mailto:x"), DidResolution::Unresolvable));
}

#[test]
fn test_se5_bloom_filter_accuracy() {
    let mut window = DedupWindow::new(4, 8 * 1024 * 1024, 4);
    let hash1 = [1u8; 32];
    let hash2 = [2u8; 32];
    assert!(!window.observe(&hash1));
    assert!(window.might_contain(&hash1));
    assert!(!window.might_contain(&hash2));
}

#[test]
fn dedup_window_counts_duplicates_and_evicts_oldest() {
    let mut window = DedupWindow::new(2, 1024, 4);
    assert!(!window.observe(&[1u8; 32]));
    assert!(window.observe(&[1u8; 32]));
    assert!(!window.observe(&[2u8; 32]));
    assert!(!window.observe(&[3u8; 32]));
    assert!(!window.observe(&[1u8; 32]));
    assert!(window.observe(&[3u8; 32]));
}

#[test]
fn one_resolution_in_flight_per_author() {
    let mut p = PendingResolutions::new();
    assert!(p.claim(b"did:plc:a", 1));
    assert!(!p.claim(b"did:plc:a", 2));
    assert!(!p.claim(b"did:plc:a", 3));
    assert!(p.claim(b"did:plc:b", 4));
    assert_eq!(p.complete(b"did:plc:a"), vec![2, 3]);
    assert!(p.complete(b"did:plc:a").is_empty());
    assert!(p.claim(b"did:plc:a", 5));
    assert!(p.complete(b"did:plc:b").is_empty());
}
