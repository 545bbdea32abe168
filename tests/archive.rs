use did_mmap_cache::archive::{route, MultiShardArchive, SegmentedArchive};
use did_mmap_cache::segment::{read_record, ArchiveError, ClusterCache, Segment};
use did_mmap_cache::tombstone::TombstoneStore;
use did_mmap_cache::writer::{ArchiveWriter, SegmentFiles};
use std::hash::{Hash, Hasher};

fn open(files: SegmentFiles, tombstones: Option<TombstoneStore>, dict: Option<Vec<u8>>) -> SegmentedArchive {
    let mut archive = SegmentedArchive::new(tombstones, dict);
    archive.add_segment(Segment::new(files.start_seq, files.bin, files.idx));
    archive
}

fn path_hash(path: &str) -> u64 {
    let mut hasher = fxhash::FxHasher::default();
    path.hash(&mut hasher);
    hasher.finish()
}

#[test]
fn test_rp1_sc3_alignment_with_gaps() {
    let mut writer = ArchiveWriter::new(0, 100, 10, None);
    assert!(writer.append_message(100, "did:1", "p1", b"msg100").is_none());
    assert!(writer.append_message(110, "did:1", "p2", b"msg110").is_none());
    let files = writer.finalize_segment().unwrap().unwrap();
    let archive = open(files, None, None);
    assert_eq!(archive.get_message_by_seq(110, None).unwrap(), b"msg110");
    assert!(archive.get_message_by_seq(105, None).is_err());
}

#[test]
fn test_ci1_ci2_merkle_integrity() {
    let mut writer = ArchiveWriter::new(0, 0, 10, None);
    writer.append_message(0, "did:1", "p1", b"perfect_data");
    let files = writer.finalize_segment().unwrap().unwrap();
    let mut corrupted = files.bin.clone();
    let idx = files.idx.clone();
    let archive = open(files, None, None);
    assert!(archive.verify_integrity_at_seq(0, None).unwrap());
    if corrupted.len() > 50 {
        corrupted[50] ^= 0xFF;
    } else {
        corrupted[0] ^= 0xFF;
    }
    let mut archive_corrupted = SegmentedArchive::new(None, None);
    archive_corrupted.add_segment(Segment::new(0, corrupted, idx));
    assert!(!archive_corrupted.verify_integrity_at_seq(0, None).unwrap());
}

#[test]
fn test_rp2_path_hash_lookup() {
    let mut writer = ArchiveWriter::new(0, 0, 100, None);
    let path = "app.bsky.feed.post/12345";
    let target_hash = path_hash(path);
    writer.append_message(500, "did:1", path, b"data");
    let files = writer.finalize_segment().unwrap().unwrap();
    let archive = open(files, None, None);
    assert_eq!(archive.find_seq_by_path_hash(target_hash).unwrap(), 500);
}

#[test]
fn test_rp3_shard_distribution_parity() {
    let mut archive = MultiShardArchive::new(16, 1000, None, 1024);
    for i in 0..100 {
        let did = format!("did:plc:user{}", i);
        archive.ingest(i as u64, &did, "path/1", b"data").unwrap();
    }
    let files = archive.shutdown().unwrap();
    let mut shards = std::collections::BTreeSet::new();
    for f in &files {
        shards.insert(f.shard_id);
    }
    assert!(shards.len() > 8);
}

#[test]
fn test_v2_2_path_hash_and_gaps() {
    let mut writer = ArchiveWriter::new(0, 100, 10, None);
    let did = "did:plc:test_v2_2";
    let path1 = "app.bsky.feed.post/123";
    let path2 = "app.bsky.feed.post/456";
    let msg1 = b"Message 1";
    let msg2 = b"Message 2";
    writer.append_message(100, did, path1, msg1);
    writer.append_message(105, did, path2, msg2);
    let files = writer.finalize_segment().unwrap().unwrap();
    let archive = open(files, None, None);
    assert_eq!(archive.get_message_by_seq(100, None).unwrap(), msg1);
    assert_eq!(archive.get_message_by_seq(105, None).unwrap(), msg2);
    let gap_res = archive.get_message_by_seq(102, None);
    assert!(gap_res.is_err());
    assert_eq!(gap_res.unwrap_err(), ArchiveError::NotFound);
    let target_hash = path_hash(path2);
    let found_seq = archive.find_sequence_by_path(target_hash).unwrap();
    assert_eq!(found_seq, 105);
    assert!(archive.verify_integrity_at_seq(100, None).unwrap());
}

#[test]
fn test_v2_2_tombstone_filtering() {
    let mut archive = MultiShardArchive::new(16, 50, None, 1024);
    let did = "did:plc:tombstone_test";
    let msg = b"Delete me";
    archive.ingest(500, did, "path/to/delete", msg).unwrap();
    archive.shutdown().unwrap();
    assert_eq!(archive.get_message_by_seq(500).unwrap(), msg);
    archive.mark_deleted(500);
    let res = archive.get_message_by_seq(500);
    assert!(res.is_err());
    let cluster_res = archive.get_raw_cluster_at_seq(500);
    assert!(cluster_res.is_err(), "Raw cluster should be rejected if message is tombstoned");
}

#[test]
fn test_v2_2_dictionary_compression() {
    let mut dict = Vec::new();
    for _ in 0..100 {
        dict.extend_from_slice(b"atproto_special_pattern_");
    }
    let mut writer = ArchiveWriter::new(0, 1000, 10, Some(dict.clone()));
    let msg = b"atproto_special_pattern_DATA_HERE";
    writer.append_message(1000, "did:1", "p1", msg);
    let files = writer.finalize_segment().unwrap().unwrap();
    let archive = open(files, None, Some(dict));
    let res = archive.get_message_by_seq(1000, None).unwrap();
    assert_eq!(res, msg);
}

#[test]
fn test_clustered_archive_integrity() {
    let mut writer = ArchiveWriter::new(0, 100, 5, None);
    let did_a = "did:plc:aaaaa";
    let did_b = "did:plc:bbbbb";
    let msg1 = b"Hello from A - 1";
    let msg2 = b"Hello from A - 2 (longer)";
    let msg3 = b"Hello from B - 1";
    let msg4 = b"Hello from A - 3 (multi-cluster)";
    let msg5 = b"Hello from B - 2";
    assert!(writer.append_message(100, did_a, "test/path", msg1).is_none());
    assert!(writer.append_message(101, did_a, "test/path", msg2).is_none());
    assert!(writer.append_message(102, did_b, "test/path", msg3).is_none());
    assert!(writer.append_message(103, did_a, "test/path", msg4).is_none());
    let payload = writer.append_message(104, did_b, "test/path", msg5).unwrap();
    let files = ArchiveWriter::persist_payload(&payload, None).unwrap().unwrap();
    assert!(files.bin.len() > 0);
    let archive = open(files, None, None);
    assert_eq!(archive.segment_count(), 1);
    assert_eq!(archive.get_message_by_seq(100, None).unwrap(), msg1);
    assert_eq!(archive.get_message_by_seq(101, None).unwrap(), msg2);
    assert_eq!(archive.get_message_by_seq(102, None).unwrap(), msg3);
    assert_eq!(archive.get_message_by_seq(103, None).unwrap(), msg4);
    assert_eq!(archive.get_message_by_seq(104, None).unwrap(), msg5);
}

#[test]
fn test_archive_clustering_and_reconstruction() {
    let mut writer = ArchiveWriter::new(0, 1000, 10, None);
    let u1 = "did:plc:user1";
    let u2 = "did:plc:user2";
    let msg1000 = b"message 1000 from user 1";
    let msg1001 = b"message 1001 from user 2";
    let msg1002 = b"message 1002 from user 1 again";
    writer.append_message(1000, u1, "test/path", msg1000);
    writer.append_message(1001, u2, "test/path", msg1001);
    writer.append_message(1002, u1, "test/path", msg1002);
    let files = writer.finalize_segment().expect("Finalize failed").unwrap();
    let archive = open(files, None, None);
    let rec1000 = archive.get_message_by_seq(1000, None).expect("Read 1000 failed");
    let rec1001 = archive.get_message_by_seq(1001, None).expect("Read 1001 failed");
    let rec1002 = archive.get_message_by_seq(1002, None).expect("Read 1002 failed");
    assert_eq!(msg1000, rec1000.as_slice());
    assert_eq!(msg1001, rec1001.as_slice());
    assert_eq!(msg1002, rec1002.as_slice());
}

#[test]
fn two_messages_round_trip_and_index_size() {
    let mut writer = ArchiveWriter::new(0, 0, 50, None);
    writer.append_message(100, "did:x", "p/1", b"hello");
    writer.append_message(101, "did:x", "p/2", b"world");
    let files = writer.finalize_segment().unwrap().unwrap();
    assert_eq!(files.idx.len(), 88);
    assert_eq!(files.start_seq, 100);
    let archive = open(files, None, None);
    assert_eq!(archive.get_message_by_seq(100, None).unwrap(), b"hello");
    assert_eq!(archive.get_message_by_seq(101, None).unwrap(), b"world");
}

#[test]
fn flipped_byte_fails_integrity() {
    let mut writer = ArchiveWriter::new(0, 0, 50, None);
    writer.append_message(7, "did:x", "p/1", b"a payload long enough to fill a cluster of some fifty bytes or more");
    let files = writer.finalize_segment().unwrap().unwrap();
    let mut bin = files.bin.clone();
    let idx = files.idx.clone();
    let archive = open(files, None, None);
    assert!(archive.verify_integrity_at_seq(7, None).unwrap());
    let at = if bin.len() > 50 { 50 } else { bin.len() - 1 };
    bin[at] ^= 0xFF;
    let mut tampered = SegmentedArchive::new(None, None);
    tampered.add_segment(Segment::new(7, bin, idx));
    assert!(!tampered.verify_integrity_at_seq(7, None).unwrap());
}

#[test]
fn gaps_read_as_not_found() {
    let mut writer = ArchiveWriter::new(0, 0, 50, None);
    writer.append_message(100, "did:x", "p/1", b"first");
    writer.append_message(105, "did:x", "p/2", b"second");
    let files = writer.finalize_segment().unwrap().unwrap();
    assert_eq!(files.idx.len(), 32 + 28 * 6);
    for rel in 1..5 {
        let rec = read_record(&files.idx, rel).unwrap();
        assert_eq!(rec.len, 0);
        assert_eq!(rec.bin_off, 0);
    }
    let archive = open(files, None, None);
    assert_eq!(archive.get_message_by_seq(100, None).unwrap(), b"first");
    assert_eq!(archive.get_message_by_seq(105, None).unwrap(), b"second");
    for s in 101..105 {
        assert_eq!(archive.get_message_by_seq(s, None), Err(ArchiveError::NotFound));
    }
    assert_eq!(archive.get_message_by_seq(106, None), Err(ArchiveError::NotFound));
}

#[test]
fn tombstone_hides_message_and_rebuilds_cluster() {
    let mut writer = ArchiveWriter::new(0, 0, 50, None);
    writer.append_message(10, "did:x", "p/1", b"keep me");
    writer.append_message(11, "did:x", "p/2", b"delete me");
    let files = writer.finalize_segment().unwrap().unwrap();
    let mut archive = open(files, Some(TombstoneStore::new(16)), None);
    let stored_cluster = archive.get_raw_cluster_at_seq(10).unwrap();
    archive.mark_deleted(11);
    assert_eq!(archive.get_message_by_seq(11, None), Err(ArchiveError::NotFound));
    assert_eq!(archive.get_raw_cluster_at_seq(11), Err(ArchiveError::NotFound));
    let rebuilt = archive.get_raw_cluster_at_seq(10).unwrap();
    assert_ne!(rebuilt, stored_cluster);
    let raw = zstd::stream::decode_all(rebuilt.as_slice()).unwrap();
    assert_eq!(u16::from_le_bytes([raw[0], raw[1]]), 1);
    assert_eq!(u32::from_le_bytes([raw[2], raw[3], raw[4], raw[5]]), 7);
    assert_eq!(&raw[6..], b"keep me");
    assert_eq!(archive.get_message_by_seq(10, None).unwrap(), b"keep me");
}

#[test]
fn lone_tombstoned_message_has_no_cluster() {
    let mut archive = MultiShardArchive::new(4, 10, None, 128);
    archive.ingest(500, "did:plc:only", "p", b"x").unwrap();
    archive.shutdown().unwrap();
    assert!(archive.get_raw_cluster_at_seq(500).is_ok());
    archive.mark_deleted(500);
    assert_eq!(archive.get_message_by_seq(500), Err(ArchiveError::NotFound));
    assert_eq!(archive.get_raw_cluster_at_seq(500), Err(ArchiveError::NotFound));
}

#[test]
fn authors_route_to_stable_shards_and_spread() {
    let a = route("did:plc:someone", 16);
    assert_eq!(a, route("did:plc:someone", 16));
    assert!(a < 16);
    let mut archive = MultiShardArchive::new(16, 1000, None, 1024);
    for i in 0..100 {
        let did = format!("did:plc:author{}", i);
        archive.ingest(i as u64, &did, "p", b"data").unwrap();
    }
    let files = archive.shutdown().unwrap();
    let shards: std::collections::BTreeSet<usize> = files.iter().map(|f| f.shard_id).collect();
    assert!(shards.len() >= 9);
    for i in 0..100u64 {
        assert_eq!(archive.get_message_by_seq(i).unwrap(), b"data");
    }
}

#[test]
fn delete_by_path_marks_the_sequence() {
    let mut archive = MultiShardArchive::new(4, 2, None, 128);
    archive.ingest(1, "did:plc:a", "app.bsky.feed.post/1", b"one").unwrap();
    archive.ingest(2, "did:plc:a", "app.bsky.feed.post/2", b"two").unwrap();
    assert_eq!(archive.delete_by_path("did:plc:a", "app.bsky.feed.post/2"), Some(2));
    assert!(archive.is_deleted(2));
    assert_eq!(archive.get_message_by_seq(1).unwrap(), b"one");
    assert_eq!(archive.get_message_by_seq(2), Err(ArchiveError::NotFound));
    assert_eq!(archive.min_seq(), Some(1));
    assert_eq!(archive.max_seq(), Some(2));
}

#[test]
fn test_se2_compression_ratio() {
    let mut writer = ArchiveWriter::new(0, 0, 1000, None);
    let mut total_raw_bytes = 0;
    for i in 0..100 {
        let did = "did:plc:abcdefghijklmnopqrstuvwxyz";
        let path = format!("app.bsky.feed.post/{}", i);
        let msg = format!(
            r#"{{"text": "Hello world! This is message number {} with some repeated text structure.", "createdAt": "2024-01-01T00:00:00.000Z"}}"#,
            i
        )
        .into_bytes();
        total_raw_bytes += msg.len();
        writer.append_message(i as u64, did, &path, &msg);
    }
    let files = writer.finalize_segment().unwrap().unwrap();
    let compressed_bytes = files.bin.len();
    let reduction = 100.0 * (1.0 - (compressed_bytes as f64 / total_raw_bytes as f64));
    assert!(reduction > 50.0, "Compression reduction should be significant (found {:.2}%)", reduction);
}

#[test]
fn test_se2_realistic_compression() {
    let mut writer = ArchiveWriter::new(0, 0, 1000, None);
    let users = ["did:plc:user1", "did:plc:user2"];
    let mut state: u64 = 0x9E3779B97F4A7C15;
    let mut total_raw_bytes = 0usize;
    for i in 0..100u64 {
        let did = users[(i % 2) as usize];
        let path = format!("app.bsky.feed.post/{}", i);
        let mut msg_text = format!(
            r#"{{"text": "Sovereignty through code.", "createdAt": "2024-02-08T12:00:00Z", "reply": {{"parent": "cid_placeholder", "root": "cid_placeholder"}}}}"#
        )
        .into_bytes();
        for _ in 0..100 {
            state ^= state << 13;
            state ^= state >> 7;
            state ^= state << 17;
            msg_text.push((state >> 24) as u8);
        }
        total_raw_bytes += msg_text.len();
        writer.append_message(i, did, &path, &msg_text);
    }
    let files = writer.finalize_segment().unwrap().unwrap();
    let compressed_bytes = files.bin.len();
    let reduction = 100.0 * (1.0 - (compressed_bytes as f64 / total_raw_bytes as f64));
    assert!(reduction > 45.0, "Compression hit the entropy floor too early (found {:.2}%)", reduction);
}

#[test]
fn test_se1_index_record_size() {
    let mut writer = ArchiveWriter::new(0, 0, 10, None);
    writer.append_message(0, "did:1", "p1", b"data");
    let files = writer.finalize_segment().unwrap().unwrap();
    assert_eq!(files.idx.len(), 60, "Index file should be exactly 60 bytes for 1 message");
}

#[test]
fn test_se3_sc1_tombstone_capacity() {
    let ts = TombstoneStore::new(512 * 1024 * 1024);
    assert_eq!(ts.as_bytes().len(), 512 * 1024 * 1024);
}

#[test]
fn tombstone_bits_set_and_stay() {
    let mut ts = TombstoneStore::new(2);
    assert!(!ts.is_deleted(3));
    ts.mark_deleted(3);
    ts.mark_deleted(3);
    assert!(ts.is_deleted(3));
    assert!(!ts.is_deleted(2));
    assert_eq!(ts.as_bytes()[0], 1 << 3);
    ts.mark_deleted(15);
    assert_eq!(ts.as_bytes()[1], 0x80);
    ts.mark_deleted(16);
    assert!(!ts.is_deleted(16));
}

#[test]
fn test_rp4_atomic_tombstone_performance() {
    let mut ts = TombstoneStore::new(512 * 1024);
    let start = std::time::Instant::now();
    for i in 0..10_000 {
        ts.mark_deleted(i as u64);
    }
    let per_op = start.elapsed().as_nanos() / 10_000;
    assert!(per_op < 1000);
    assert!(ts.is_deleted(9_999));
}

#[test]
fn cached_reads_match_uncached_reads() {
    let mut writer = ArchiveWriter::new(0, 0, 50, None);
    writer.append_message(10, "did:a", "p/1", b"alpha");
    writer.append_message(11, "did:a", "p/2", b"beta");
    writer.append_message(12, "did:b", "p/3", b"gamma");
    let files = writer.finalize_segment().unwrap().unwrap();
    let seg = Segment::new(files.start_seq, files.bin, files.idx);
    let mut cache = ClusterCache::new();
    for round in 0..2 {
        for (rel, want) in [(0u64, &b"alpha"[..]), (1, &b"beta"[..]), (2, &b"gamma"[..])] {
            assert_eq!(seg.get_message_cached(rel, None, &mut cache).unwrap(), want, "round {}", round);
            assert_eq!(seg.get_decompressed_message_by_index(rel, None).unwrap(), want);
        }
    }
    assert_eq!(seg.get_message_cached(7, None, &mut cache), Err(ArchiveError::NotFound));
}
