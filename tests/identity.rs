use did_mmap_cache::cache::MmapDidCache;
use sha2::Digest;

fn home(did: &str, slots: u64) -> u64 {
    let d: [u8; 32] = sha2::Sha256::digest(did.as_bytes()).into();
    fxhash::hash64(&d) % slots
}

#[test]
fn test_insert_and_get() {
    let mut cache = MmapDidCache::new(1000);
    let did = "did:plc:abcdef";
    let pubkey = [42u8; 33];
    assert!(cache.atomic_update_or_tombstone(did, Some(1), Some(&pubkey)));
    let (pk, kt) = cache.get(did).unwrap();
    assert_eq!(pk, pubkey);
    assert_eq!(kt, 1);
}

#[test]
fn test_remove_did() {
    let mut cache = MmapDidCache::new(1000);
    let did = "did:plc:removeme";
    let pubkey = [7u8; 33];
    assert!(cache.atomic_update_or_tombstone(did, Some(2), Some(&pubkey)));
    assert!(cache.remove_did(did));
    assert!(cache.get(did).is_none());
}

#[test]
fn test_cache_lookup() {
    let cache = MmapDidCache::new(10);
    assert!(cache.get("did:plc:dummy").is_none());
}

#[test]
fn update_tombstone_and_colliding_author() {
    let slots = 8u64;
    let mut cache = MmapDidCache::new(slots as usize);
    let a = "A";
    let b = (0..10_000).map(|i| format!("B{}", i)).find(|c| home(c, slots) == home(a, slots)).unwrap();
    let k1 = [1u8; 33];
    let k2 = [2u8; 33];
    let kb = [3u8; 33];
    assert!(cache.atomic_update_or_tombstone(a, Some(1), Some(&k1)));
    assert!(cache.atomic_update_or_tombstone(&b, Some(2), Some(&kb)));
    assert_eq!(cache.get(&b), Some((kb, 2)));
    assert!(cache.atomic_update_or_tombstone(a, Some(1), Some(&k2)));
    assert_eq!(cache.get(a), Some((k2, 1)));
    assert!(cache.atomic_update_or_tombstone(a, None, None));
    assert_eq!(cache.get(a), None);
    assert_eq!(cache.get(&b), Some((kb, 2)));
    assert_eq!(cache.get("never-inserted"), None);
    assert!(cache.atomic_update_or_tombstone(a, Some(1), Some(&k1)));
    assert_eq!(cache.get(a), Some((k1, 1)));
}

#[test]
fn full_table_refuses_new_authors() {
    let mut cache = MmapDidCache::new(1);
    assert!(cache.atomic_update_or_tombstone("one", Some(1), Some(&[1u8; 33])));
    assert!(!cache.atomic_update_or_tombstone("two", Some(1), Some(&[2u8; 33])));
    assert!(!cache.remove_did("two"));
    assert!(cache.remove_did("one"));
    assert!(cache.get("one").is_none());
    let e = cache.entries()[0];
    assert_eq!(e.valid, 2);
    assert!(!e.is_valid());
    assert_eq!(e.pubkey_bytes(), &[0u8; 33][..]);
    assert_eq!(e.key_type, 0);
}
