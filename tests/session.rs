use did_mmap_cache::archive::MultiShardArchive;
use did_mmap_cache::cache::CacheEntry;
use did_mmap_cache::ledger::{is_unrecoverable, may_spawn, ConnectFailure, PdsEntry};
use did_mmap_cache::relay::{RelayAction, RelaySession};

#[test]
fn relay_starts_at_cursor_or_archive_minimum() {
    assert_eq!(RelaySession::start(Some(7), Some(3)).unwrap().current_seq, 7);
    assert_eq!(RelaySession::start(None, Some(3)).unwrap().current_seq, 3);
    assert!(RelaySession::start(None, None).is_none());
}

#[test]
fn relay_sends_each_cluster_once_and_skips_deleted() {
    let mut archive = MultiShardArchive::new(1, 100, None, 64);
    archive.ingest(1, "did:plc:a", "p/1", b"one").unwrap();
    archive.ingest(2, "did:plc:a", "p/2", b"two").unwrap();
    archive.ingest(3, "did:plc:b", "p/3", b"three").unwrap();
    archive.shutdown().unwrap();
    archive.mark_deleted(3);
    let mut s = RelaySession::start(None, archive.min_seq()).unwrap();
    assert_eq!(s.current_seq, 1);
    let first = match s.step(&archive) {
        RelayAction::Send(c) => c,
        _ => panic!("expected a cluster"),
    };
    assert!(!first.is_empty());
    assert!(matches!(s.step(&archive), RelayAction::Repeat));
    assert_eq!(s.current_seq, 3);
    assert!(matches!(s.step(&archive), RelayAction::Skip));
    assert_eq!(s.filtered, 1);
    assert_eq!(s.current_seq, 4);
    assert!(matches!(s.step(&archive), RelayAction::Wait));
    assert_eq!(s.current_seq, 4);
}

#[test]
fn supervisor_decisions() {
    assert!(is_unrecoverable(&ConnectFailure::Http(404), 0));
    assert!(is_unrecoverable(&ConnectFailure::Http(200), 0));
    assert!(is_unrecoverable(&ConnectFailure::Http(503), 5));
    assert!(!is_unrecoverable(&ConnectFailure::Http(503), 4));
    assert!(!is_unrecoverable(&ConnectFailure::Http(429), 0));
    assert!(is_unrecoverable(&ConnectFailure::UnsupportedScheme, 0));
    assert!(!is_unrecoverable(&ConnectFailure::Other, 0));
    let mut e = PdsEntry::new("wss://x.example").unwrap();
    assert!(may_spawn(&e, 10, false, false));
    e.record_failure(10);
    assert!(!may_spawn(&e, 10, false, false));
    assert!(may_spawn(&e, 10 + 60, false, false));
    assert!(!may_spawn(&e, 10_000, true, false));
    assert!(!may_spawn(&e, 10_000, false, true));
}

#[test]
fn record_layouts_round_trip() {
    let mut e = PdsEntry::new("wss://y.example").unwrap();
    e.record_failure(1234);
    let b = e.to_bytes();
    assert_eq!(b.len(), 256);
    assert_eq!(&b[..15], b"wss://y.example");
    assert_eq!(b[15], 0);
    assert_eq!(u32::from_le_bytes([b[200], b[201], b[202], b[203]]), 1);
    let back = PdsEntry::from_bytes(&b).unwrap();
    assert_eq!(back.get_url(), "wss://y.example");
    assert_eq!(back.penalty_until, 1234 + 60);
    assert!(PdsEntry::from_bytes(&b[..255]).is_none());
    let slot = CacheEntry { did_hash: [9u8; 32], key_type: 1, pubkey: [4u8; 33], reserved: [0u8; 32], valid: 1 };
    let sb = slot.to_bytes();
    assert_eq!(sb.len(), 99);
    assert_eq!(sb[32], 1);
    assert_eq!(sb[98], 1);
    let back = CacheEntry::from_bytes(&sb).unwrap();
    assert_eq!(back.did_hash, [9u8; 32]);
    assert_eq!(back.pubkey, [4u8; 33]);
    assert!(CacheEntry::from_bytes(&sb[1..]).is_none());
}
