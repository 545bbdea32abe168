//! One archive segment: the index (a 32-byte root, then one 28-byte record per
//! sequence) and the data (compressed clusters end to end), read in place.
use vstd::prelude::*;
use vstd::bytes::{
    spec_u32_from_le_bytes, spec_u32_to_le_bytes, spec_u64_from_le_bytes, spec_u64_to_le_bytes,
    u32_from_le_bytes, u32_to_le_bytes, u64_from_le_bytes, u64_to_le_bytes,
};
use crate::cluster::append_bytes;
use crate::codec::{dict_view, zstd_decompress, zstd_frame};
use crate::merkle::{merkle_root, leaf_digests, MerkleTree};

verus! {

/// Bytes of the integrity root at the head of an index.
pub const ROOT_SIZE: usize = 32;

/// Bytes of one index record.
pub const RECORD_SIZE: usize = 28;

/// Why a read from the archive failed.
#[derive(Clone, Copy, Debug, PartialEq, Eq, Structural)]
pub enum ArchiveError {
    /// No message is stored at that sequence (a gap, a tombstone, or out of range).
    NotFound,
    /// The files disagree with their own index.
    Corrupt,
    /// The compressor or decompressor failed.
    Compression,
    /// A batch does not fit the cluster or index layout.
    TooLarge,
}

/// Where one message is kept: its cluster in the data file, its place inside the
/// decompressed cluster, and the hash of its path. A zero length marks a gap.
#[derive(Clone, Copy, Debug, PartialEq, Eq, Structural)]
pub struct IndexRecord {
    pub bin_off: u64,
    pub c_len: u32,
    pub inner_off: u32,
    pub len: u32,
    pub path_hash: u64,
}

/// The 28 little-endian bytes of a record.
pub open spec fn record_bytes(r: IndexRecord) -> Seq<u8> {
    spec_u64_to_le_bytes(r.bin_off) + spec_u32_to_le_bytes(r.c_len) + spec_u32_to_le_bytes(r.inner_off)
        + spec_u32_to_le_bytes(r.len) + spec_u64_to_le_bytes(r.path_hash)
}

/// The record that 28 bytes hold.
pub open spec fn record_of(b: Seq<u8>) -> IndexRecord {
    IndexRecord {
        bin_off: spec_u64_from_le_bytes(b.subrange(0, 8)),
        c_len: spec_u32_from_le_bytes(b.subrange(8, 12)),
        inner_off: spec_u32_from_le_bytes(b.subrange(12, 16)),
        len: spec_u32_from_le_bytes(b.subrange(16, 20)),
        path_hash: spec_u64_from_le_bytes(b.subrange(20, 28)),
    }
}

/// Number of whole records in an index.
pub open spec fn record_count(idx: Seq<u8>) -> int {
    if idx.len() < 32 {
        0
    } else {
        (idx.len() - 32) / 28
    }
}

/// Record `rel` of an index, if the index holds it.
pub open spec fn spec_record(idx: Seq<u8>, rel: int) -> Option<IndexRecord> {
    if 0 <= rel < record_count(idx) {
        Some(record_of(idx.subrange(32 + 28 * rel, 32 + 28 * rel + 28)))
    } else {
        None
    }
}

/// Law of the record layout: a record read back from its bytes is the record written.
pub proof fn lemma_record_round_trip(r: IndexRecord)
    ensures
        record_bytes(r).len() == 28,
        record_of(record_bytes(r)) == r,
{
    vstd::bytes::lemma_auto_spec_u64_to_from_le_bytes();
    vstd::bytes::lemma_auto_spec_u32_to_from_le_bytes();
    let b = record_bytes(r);
    assert(b.subrange(0, 8) =~= spec_u64_to_le_bytes(r.bin_off));
    assert(b.subrange(8, 12) =~= spec_u32_to_le_bytes(r.c_len));
    assert(b.subrange(12, 16) =~= spec_u32_to_le_bytes(r.inner_off));
    assert(b.subrange(16, 20) =~= spec_u32_to_le_bytes(r.len));
    assert(b.subrange(20, 28) =~= spec_u64_to_le_bytes(r.path_hash));
}

/// Appends the bytes of `r` to `out`.
pub fn encode_record(out: &mut Vec<u8>, r: &IndexRecord)
    ensures
        final(out)@ == old(out)@ + record_bytes(*r),
{
    append_bytes(out, u64_to_le_bytes(r.bin_off).as_slice());
    append_bytes(out, u32_to_le_bytes(r.c_len).as_slice());
    append_bytes(out, u32_to_le_bytes(r.inner_off).as_slice());
    append_bytes(out, u32_to_le_bytes(r.len).as_slice());
    append_bytes(out, u64_to_le_bytes(r.path_hash).as_slice());
    assert(final(out)@ =~= old(out)@ + record_bytes(*r));
}

/// Reads record `rel` of the index `idx`.
pub fn read_record(idx: &[u8], rel: u64) -> (r: Option<IndexRecord>)
    ensures
        r == spec_record(idx@, rel as int),
{
    let len = idx.len();
    if len < ROOT_SIZE {
        return None;
    }
    let count = (len - ROOT_SIZE) / RECORD_SIZE;
    if rel >= count as u64 {
        return None;
    }
    let s = ROOT_SIZE + (rel as usize) * RECORD_SIZE;
    let b = vstd::slice::slice_subrange(idx, s, s + RECORD_SIZE);
    let rec = IndexRecord {
        bin_off: u64_from_le_bytes(vstd::slice::slice_subrange(b, 0, 8)),
        c_len: u32_from_le_bytes(vstd::slice::slice_subrange(b, 8, 12)),
        inner_off: u32_from_le_bytes(vstd::slice::slice_subrange(b, 12, 16)),
        len: u32_from_le_bytes(vstd::slice::slice_subrange(b, 16, 20)),
        path_hash: u64_from_le_bytes(vstd::slice::slice_subrange(b, 20, 28)),
    };
    Some(rec)
}

/// Whether `msg` is what the record `rec` locates: the slice at its inner offset of the
/// data that its cluster is a frame of, whenever the cluster is a frame of some data.
pub open spec fn read_ok(bin: Seq<u8>, rec: IndexRecord, dict: Option<Seq<u8>>, msg: Seq<u8>) -> bool {
    forall|c: Seq<u8>|
        rec.bin_off + rec.c_len <= bin.len() && bin.subrange(rec.bin_off as int, rec.bin_off + rec.c_len)
            == zstd_frame(c, dict) ==> rec.inner_off + rec.len <= c.len() && msg == c.subrange(
            rec.inner_off as int,
            rec.inner_off + rec.len,
        )
}

/// Whether the cluster of `rec` is a frame of data long enough to hold the message.
pub open spec fn cluster_holds(bin: Seq<u8>, rec: IndexRecord, dict: Option<Seq<u8>>) -> bool {
    crate::codec::raw_dictionary(dict) && exists|c: Seq<u8>|
        rec.bin_off + rec.c_len <= bin.len() && bin.subrange(rec.bin_off as int, rec.bin_off + rec.c_len)
            == zstd_frame(c, dict) && rec.inner_off + rec.len <= c.len()
}

/// Whether record `rec` keeps `data` (at the path hashed to `rec.path_hash`): its
/// cluster in `bin` is the frame of a cluster whose payload at the record's inner
/// offset is `data`, and the record's length is that of `data`.
pub open spec fn stored(rec: IndexRecord, bin: Seq<u8>, dict: Option<Seq<u8>>, data: Seq<u8>) -> bool {
    &&& rec.len == data.len()
    &&& rec.bin_off + rec.c_len <= bin.len()
    &&& exists|ps: Seq<Seq<u8>>, k: int|
        #![trigger crate::cluster::inner_offset(ps, k)]
        crate::cluster::fits_cluster(ps) && 0 <= k < ps.len() && ps[k] == data && rec.inner_off
            == crate::cluster::inner_offset(ps, k) && bin.subrange(rec.bin_off as int, rec.bin_off + rec.c_len)
            == zstd_frame(crate::cluster::cluster_bytes(ps), dict)
}

/// Law of the archive's round trip: a message that a record keeps is what reading that
/// record gives back. The read succeeds, and whatever it returns is the message.
pub proof fn lemma_read_back(rec: IndexRecord, bin: Seq<u8>, dict: Option<Seq<u8>>, data: Seq<u8>, v: Seq<u8>)
    requires
        stored(rec, bin, dict, data),
        crate::codec::raw_dictionary(dict),
    ensures
        cluster_holds(bin, rec, dict),
        read_ok(bin, rec, dict, v) ==> v == data,
{
    let (ps, k) = choose|ps: Seq<Seq<u8>>, k: int|
        #![trigger crate::cluster::inner_offset(ps, k)]
        crate::cluster::fits_cluster(ps) && 0 <= k < ps.len() && ps[k] == data && rec.inner_off
            == crate::cluster::inner_offset(ps, k) && bin.subrange(rec.bin_off as int, rec.bin_off + rec.c_len)
            == zstd_frame(crate::cluster::cluster_bytes(ps), dict);
    crate::cluster::lemma_cluster_round_trip(ps, k);
    let c = crate::cluster::cluster_bytes(ps);
    assert(rec.inner_off + rec.len <= c.len());
    assert(cluster_holds(bin, rec, dict));
}

/// The sequence of the first record from `i` on whose path hash is `h`; none if there is
/// none, or if that sequence would pass `u64::MAX`.
pub open spec fn first_match_from(seg: Segment, h: u64, i: int) -> Option<u64>
    decreases record_count(seg.idx@) - i,
{
    if i < 0 || i >= record_count(seg.idx@) {
        None
    } else if spec_record(seg.idx@, i).unwrap().path_hash == h {
        if seg.start_seq + i <= u64::MAX { Some((seg.start_seq + i) as u64) } else { None }
    } else {
        first_match_from(seg, h, i + 1)
    }
}

/// An immutable segment held in memory.
pub struct Segment {
    pub start_seq: u64,
    pub bin: Vec<u8>,
    pub idx: Vec<u8>,
    pub root_hash: [u8; 32],
}

impl Segment {
    /// A segment over its data and index bytes; the root is read from the head of the index
    /// (zero if the index is shorter than a root).
    pub fn new(start_seq: u64, bin: Vec<u8>, idx: Vec<u8>) -> (r: Self)
        ensures
            r.start_seq == start_seq,
            r.bin@ == bin@,
            r.idx@ == idx@,
            idx@.len() >= 32 ==> r.root_hash@ == idx@.subrange(0, 32),
    {
        let mut root_hash = [0u8; 32];
        if idx.len() >= ROOT_SIZE {
            let mut k: usize = 0;
            while k < ROOT_SIZE
                invariant
                    k <= 32,
                    idx@.len() >= 32,
                    root_hash@.len() == 32,
                    forall|j: int| 0 <= j < k ==> root_hash@[j] == idx@[j],
                decreases 32 - k,
            {
                root_hash[k] = idx[k];
                k = k + 1;
            }
            assert(root_hash@ =~= idx@.subrange(0, 32));
        }
        Segment { start_seq, bin, idx, root_hash }
    }

    /// Number of records in the index.
    pub fn msg_count(&self) -> (r: u64)
        ensures
            r as int == record_count(self.idx@),
    {
        if self.idx.len() < ROOT_SIZE {
            0
        } else {
            ((self.idx.len() - ROOT_SIZE) / RECORD_SIZE) as u64
        }
    }

    /// The sequence of the first record whose path hash is `path_hash`.
    pub fn find_seq_by_path_hash(&self, path_hash: u64) -> (r: Option<u64>)
        ensures
            match r {
                None => forall|i: int| 0 <= i < record_count(self.idx@) ==> (#[trigger] spec_record(self.idx@, i)).unwrap().path_hash != path_hash
                    || self.start_seq + i > u64::MAX,
                Some(s) => {
                    &&& s >= self.start_seq
                    &&& 0 <= s - self.start_seq < record_count(self.idx@)
                    &&& spec_record(self.idx@, s - self.start_seq).unwrap().path_hash == path_hash
                    &&& forall|i: int| 0 <= i < s - self.start_seq ==> (#[trigger] spec_record(self.idx@, i)).unwrap().path_hash != path_hash
                },
            },
            r == first_match_from(*self, path_hash, 0),
    {
        let n = self.msg_count();
        let mut i: u64 = 0;
        while i < n
            invariant
                n as int == record_count(self.idx@),
                i <= n,
                forall|j: int| 0 <= j < i ==> (#[trigger] spec_record(self.idx@, j)).unwrap().path_hash != path_hash,
                first_match_from(*self, path_hash, 0) == first_match_from(*self, path_hash, i as int),
            decreases n - i,
        {
            let rec = read_record(self.idx.as_slice(), i).unwrap();
            if rec.path_hash == path_hash {
                if i > u64::MAX - self.start_seq {
                    return None;
                }
                return Some(self.start_seq + i);
            }
            i = i + 1;
        }
        None
    }

    /// The message of record `index`, decompressed.
    pub fn get_decompressed_message_by_index(&self, index: u64, dict: Option<&[u8]>) -> (r: Result<Vec<u8>, ArchiveError>)
        ensures
            match spec_record(self.idx@, index as int) {
                None => r == Err::<Vec<u8>, ArchiveError>(ArchiveError::NotFound),
                Some(rec) => if rec.len == 0 {
                    r == Err::<Vec<u8>, ArchiveError>(ArchiveError::NotFound)
                } else {
                    &&& cluster_holds(self.bin@, rec, dict_view(dict)) ==> r is Ok
                    &&& r matches Ok(v) ==> read_ok(self.bin@, rec, dict_view(dict), v@)
                },
            },
    {
        let rec = match read_record(self.idx.as_slice(), index) {
            None => return Err(ArchiveError::NotFound),
            Some(rec) => rec,
        };
        if rec.len == 0 {
            return Err(ArchiveError::NotFound);
        }
        let off = rec.bin_off;
        let c_len = rec.c_len as u64;
        if off > self.bin.len() as u64 || c_len > self.bin.len() as u64 - off {
            return Err(ArchiveError::Corrupt);
        }
        let frame = vstd::slice::slice_subrange(self.bin.as_slice(), off as usize, (off + c_len) as usize);
        assert(frame@ == self.bin@.subrange(rec.bin_off as int, rec.bin_off + rec.c_len));
        let cluster = match zstd_decompress(frame, dict) {
            Ok(c) => c,
            Err(_) => {
                proof {
                    if cluster_holds(self.bin@, rec, dict_view(dict)) {
                        let c = choose|c: Seq<u8>| rec.bin_off + rec.c_len <= self.bin@.len() && self.bin@.subrange(rec.bin_off as int, rec.bin_off + rec.c_len)
                            == zstd_frame(c, dict_view(dict)) && rec.inner_off + rec.len <= c.len();
                        assert(frame@ == zstd_frame(c, dict_view(dict)));
                    }
                }
                return Err(ArchiveError::Compression);
            },
        };
        let inner = rec.inner_off as usize;
        let m_len = rec.len as usize;
        if inner > cluster.len() || m_len > cluster.len() - inner {
            proof {
                if cluster_holds(self.bin@, rec, dict_view(dict)) {
                    let c = choose|c: Seq<u8>| rec.bin_off + rec.c_len <= self.bin@.len() && self.bin@.subrange(rec.bin_off as int, rec.bin_off + rec.c_len)
                        == zstd_frame(c, dict_view(dict)) && rec.inner_off + rec.len <= c.len();
                    assert(frame@ == zstd_frame(c, dict_view(dict)));
                }
            }
            return Err(ArchiveError::Corrupt);
        }
        let v = crate::car::copy_bytes(vstd::slice::slice_subrange(cluster.as_slice(), inner, inner + m_len));
        Ok(v)
    }

    /// The compressed cluster of record `index`, as stored.
    pub fn get_raw_cluster_by_index(&self, index: u64) -> (r: Result<&[u8], ArchiveError>)
        ensures
            match spec_record(self.idx@, index as int) {
                None => r == Err::<&[u8], ArchiveError>(ArchiveError::NotFound),
                Some(rec) => if rec.bin_off + rec.c_len <= self.bin@.len() {
                    r matches Ok(c) && c@ == self.bin@.subrange(rec.bin_off as int, rec.bin_off + rec.c_len)
                } else {
                    r == Err::<&[u8], ArchiveError>(ArchiveError::Corrupt)
                },
            },
    {
        let rec = match read_record(self.idx.as_slice(), index) {
            None => return Err(ArchiveError::NotFound),
            Some(rec) => rec,
        };
        let off = rec.bin_off;
        let c_len = rec.c_len as u64;
        if off > self.bin.len() as u64 || c_len > self.bin.len() as u64 - off {
            return Err(ArchiveError::Corrupt);
        }
        Ok(vstd::slice::slice_subrange(self.bin.as_slice(), off as usize, (off + c_len) as usize))
    }

    /// Recomputes the Merkle root over the messages that can be read, in record order,
    /// and compares it with the stored root.
    pub fn verify_integrity(&self, dict: Option<&[u8]>) -> (r: bool)
        ensures
            exists|outs: Seq<Option<Seq<u8>>>|
                #![trigger reads_ok(self.bin@, self.idx@, dict_view(dict), outs)]
                reads_ok(self.bin@, self.idx@, dict_view(dict), outs) && r == (self.root_hash@ == merkle_root(
                    leaf_digests(somes(outs)),
                )),
    {
        let n = self.msg_count();
        let mut tree = MerkleTree::new();
        let ghost mut outs: Seq<Option<Seq<u8>>> = Seq::empty();
        let mut i: u64 = 0;
        assert(leaf_digests(somes(outs)) =~= Seq::<Seq<u8>>::empty());
        while i < n
            invariant
                i <= n,
                n as int == record_count(self.idx@),
                outs.len() == i,
                reads_prefix(self.bin@, self.idx@, dict_view(dict), outs),
                tree@ == leaf_digests(somes(outs)),
            decreases n - i,
        {
            let got = self.get_decompressed_message_by_index(i, dict);
            if let Ok(data) = got {
                tree.push(data.as_slice());
                proof {
                    assert(outs.push(Some(data@)).drop_last() =~= outs);
                    assert(somes(outs.push(Some(data@))) == somes(outs).push(data@));
                    assert(leaf_digests(somes(outs).push(data@)) =~= leaf_digests(somes(outs)).push(crate::codec::blake3_of(data@)));
                    outs = outs.push(Some(data@));
                }
            } else {
                proof {
                    assert(outs.push(None).drop_last() =~= outs);
                    assert(somes(outs.push(None)) == somes(outs));
                    outs = outs.push(None);
                }
            }
            i = i + 1;
        }
        let calculated = tree.root();
        let same = crate::car::bytes_eq(calculated.as_slice(), self.root_hash.as_slice());
        assert(reads_ok(self.bin@, self.idx@, dict_view(dict), outs));
        same
    }
}

/// Largest number of decompressed clusters a cache holds before it is cleared.
pub const CLUSTER_CACHE_CAP: usize = 512;

/// Whether `d` is what the frame of `len` bytes at `off` in `bin` decompresses to, with
/// `dict`, whenever that frame is one that compression made.
pub open spec fn cached_ok(bin: Seq<u8>, dict: Option<Seq<u8>>, off: u64, len: u32, d: Seq<u8>) -> bool {
    off + len <= bin.len() && forall|x: Seq<u8>|
        bin.subrange(off as int, off + len) == #[trigger] zstd_frame(x, dict) ==> d == x
}

/// Decompressed clusters of one segment, keyed by their place in the data file; it is
/// cleared whole when it reaches its capacity.
pub struct ClusterCache {
    entries: Vec<(u64, u32, Vec<u8>)>,
}

impl ClusterCache {
    /// The cached clusters: offset, compressed length, decompressed bytes.
    pub closed spec fn view(&self) -> Seq<(u64, u32, Seq<u8>)> {
        self.entries@.map_values(|e: (u64, u32, Vec<u8>)| (e.0, e.1, e.2@))
    }

    /// Whether every cached cluster is the decompression of its frame in `bin`.
    pub open spec fn sound_for(&self, bin: Seq<u8>, dict: Option<Seq<u8>>) -> bool {
        &&& self@.len() <= CLUSTER_CACHE_CAP
        &&& forall|i: int| 0 <= i < self@.len() ==> cached_ok(bin, dict, (#[trigger] self@[i]).0, self@[i].1, self@[i].2)
    }

    /// An empty cache.
    pub fn new() -> (r: Self)
        ensures
            r@.len() == 0,
    {
        let r = ClusterCache { entries: Vec::new() };
        assert(r@ =~= Seq::<(u64, u32, Seq<u8>)>::empty());
        r
    }

    fn lookup(&self, off: u64, len: u32) -> (r: Option<usize>)
        ensures
            r matches Some(i) ==> i < self@.len() && self@[i as int].0 == off && self@[i as int].1 == len,
    {
        let mut i: usize = 0;
        while i < self.entries.len()
            invariant
                i <= self.entries@.len(),
            decreases self.entries@.len() - i,
        {
            if self.entries[i].0 == off && self.entries[i].1 == len {
                return Some(i);
            }
            i = i + 1;
        }
        None
    }
}

impl Segment {
    /// `get_decompressed_message_by_index` through a cache of decompressed clusters: a
    /// cluster found in the cache is not decompressed again; one decompressed is cached,
    /// the cache being cleared first when full.
    pub fn get_message_cached(&self, index: u64, dict: Option<&[u8]>, cache: &mut ClusterCache) -> (r: Result<Vec<u8>, ArchiveError>)
        requires
            old(cache).sound_for(self.bin@, dict_view(dict)),
        ensures
            final(cache).sound_for(self.bin@, dict_view(dict)),
            match spec_record(self.idx@, index as int) {
                None => r == Err::<Vec<u8>, ArchiveError>(ArchiveError::NotFound),
                Some(rec) => if rec.len == 0 {
                    r == Err::<Vec<u8>, ArchiveError>(ArchiveError::NotFound)
                } else {
                    &&& cluster_holds(self.bin@, rec, dict_view(dict)) ==> r is Ok
                    &&& r matches Ok(v) ==> read_ok(self.bin@, rec, dict_view(dict), v@)
                },
            },
    {
        let rec = match read_record(self.idx.as_slice(), index) {
            None => return Err(ArchiveError::NotFound),
            Some(rec) => rec,
        };
        if rec.len == 0 {
            return Err(ArchiveError::NotFound);
        }
        let off = rec.bin_off;
        let c_len = rec.c_len;
        if off > self.bin.len() as u64 || c_len as u64 > self.bin.len() as u64 - off {
            return Err(ArchiveError::Corrupt);
        }
        let inner = rec.inner_off as usize;
        let m_len = rec.len as usize;
        if let Some(i) = cache.lookup(off, c_len) {
            let cluster = &cache.entries[i].2;
            proof {
                assert(cache@[i as int].2 == cluster@);
                assert(cached_ok(self.bin@, dict_view(dict), off, c_len, cluster@));
            }
            if inner > cluster.len() || m_len > cluster.len() - inner {
                proof {
                    if cluster_holds(self.bin@, rec, dict_view(dict)) {
                        let c = choose|c: Seq<u8>| rec.bin_off + rec.c_len <= self.bin@.len() && self.bin@.subrange(rec.bin_off as int, rec.bin_off + rec.c_len)
                            == zstd_frame(c, dict_view(dict)) && rec.inner_off + rec.len <= c.len();
                        assert(cluster@ == c);
                    }
                }
                return Err(ArchiveError::Corrupt);
            }
            let v = crate::car::copy_bytes(vstd::slice::slice_subrange(cluster.as_slice(), inner, inner + m_len));
            return Ok(v);
        }
        let frame = vstd::slice::slice_subrange(self.bin.as_slice(), off as usize, (off + c_len as u64) as usize);
        assert(frame@ == self.bin@.subrange(rec.bin_off as int, rec.bin_off + rec.c_len));
        let cluster = match zstd_decompress(frame, dict) {
            Ok(c) => c,
            Err(_) => {
                proof {
                    if cluster_holds(self.bin@, rec, dict_view(dict)) {
                        let c = choose|c: Seq<u8>| rec.bin_off + rec.c_len <= self.bin@.len() && self.bin@.subrange(rec.bin_off as int, rec.bin_off + rec.c_len)
                            == zstd_frame(c, dict_view(dict)) && rec.inner_off + rec.len <= c.len();
                        assert(frame@ == zstd_frame(c, dict_view(dict)));
                    }
                }
                return Err(ArchiveError::Compression);
            },
        };
        if inner > cluster.len() || m_len > cluster.len() - inner {
            proof {
                if cluster_holds(self.bin@, rec, dict_view(dict)) {
                    let c = choose|c: Seq<u8>| rec.bin_off + rec.c_len <= self.bin@.len() && self.bin@.subrange(rec.bin_off as int, rec.bin_off + rec.c_len)
                        == zstd_frame(c, dict_view(dict)) && rec.inner_off + rec.len <= c.len();
                    assert(frame@ == zstd_frame(c, dict_view(dict)));
                }
            }
            return Err(ArchiveError::Corrupt);
        }
        let v = crate::car::copy_bytes(vstd::slice::slice_subrange(cluster.as_slice(), inner, inner + m_len));
        if cache.entries.len() >= CLUSTER_CACHE_CAP {
            cache.entries.clear();
            assert(cache@ =~= Seq::<(u64, u32, Seq<u8>)>::empty());
        }
        let ghost before = cache@;
        let ghost cv = cluster@;
        cache.entries.push((off, c_len, cluster));
        proof {
            assert(cache@ =~= before.push((off, c_len, cv)));
            assert(cached_ok(self.bin@, dict_view(dict), off, c_len, cv));
            assert forall|i: int| 0 <= i < cache@.len() implies cached_ok(self.bin@, dict_view(dict), (#[trigger] cache@[i]).0, cache@[i].1, cache@[i].2) by {
                if i < before.len() {
                    assert(cache@[i] == before[i]);
                }
            }
        }
        Ok(v)
    }
}

/// The values read, in order, without the reads that gave nothing.
pub open spec fn somes(outs: Seq<Option<Seq<u8>>>) -> Seq<Seq<u8>>
    decreases outs.len(),
{
    if outs.len() == 0 {
        Seq::empty()
    } else {
        match outs.last() {
            Some(v) => somes(outs.drop_last()).push(v),
            None => somes(outs.drop_last()),
        }
    }
}

/// Whether `outs` are what reading the first records of a segment can give: nothing
/// for a gap, a value for every record whose cluster is a frame holding it, and only
/// values that the record locates.
pub open spec fn reads_prefix(bin: Seq<u8>, idx: Seq<u8>, dict: Option<Seq<u8>>, outs: Seq<Option<Seq<u8>>>) -> bool {
    &&& outs.len() <= record_count(idx)
    &&& forall|i: int| 0 <= i < outs.len() ==> {
        let rec = spec_record(idx, i).unwrap();
        &&& (rec.len == 0 ==> (#[trigger] outs[i]) is None)
        &&& (rec.len != 0 && cluster_holds(bin, rec, dict) ==> outs[i] is Some)
        &&& (outs[i] matches Some(v) ==> read_ok(bin, rec, dict, v))
    }
}

/// Whether `outs` are what reading every record of a segment can give.
pub open spec fn reads_ok(bin: Seq<u8>, idx: Seq<u8>, dict: Option<Seq<u8>>, outs: Seq<Option<Seq<u8>>>) -> bool {
    outs.len() == record_count(idx) && reads_prefix(bin, idx, dict, outs)
}

} // verus!
