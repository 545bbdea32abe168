//! The segmented archive of one shard, and the sharded archive that routes authors to
//! shards and serves reads across them, with tombstones applied on every read.
use vstd::prelude::*;
use crate::cluster::{decode_cluster, encode_cluster, fits_cluster, views};
use crate::codec::{fx_hash_str, fx_str, zstd_compress, zstd_decompress};
use crate::segment::{
    cluster_holds, first_match_from, read_record, record_count, reads_ok, somes, spec_record, ArchiveError, Segment, read_ok,
};
use crate::merkle::{leaf_digests, merkle_root};
use crate::codec::dict_view;
use crate::tombstone::TombstoneStore;
use crate::writer::{in_range, layout_fits, ArchiveWriter, SegmentFiles};

verus! {

/// Whether segment `s` holds a message at `seq`.
pub open spec fn seg_has(s: Segment, seq: u64) -> bool {
    s.start_seq <= seq && spec_record(s.idx@, seq - s.start_seq) is Some && spec_record(s.idx@, seq - s.start_seq).unwrap().len != 0
}

/// Whether segment `k` is the newest (last in order) segment holding a message at `seq`.
pub open spec fn newest_holder(segs: Seq<Segment>, k: int, seq: u64) -> bool {
    0 <= k < segs.len() && seg_has(segs[k], seq) && forall|k2: int| k < k2 < segs.len() ==> !seg_has(#[trigger] segs[k2], seq)
}

/// The record at `seq` in segment `s`.
pub open spec fn rec_at(s: Segment, seq: u64) -> crate::segment::IndexRecord {
    spec_record(s.idx@, seq - s.start_seq).unwrap()
}

/// The largest sequence below record `i` of `s` that holds a message (records past
/// `u64::MAX` count as the segment's start); the segment's start if there is none.
pub open spec fn last_held(s: Segment, i: int) -> u64
    decreases i,
{
    if i <= 0 || i > record_count(s.idx@) {
        s.start_seq
    } else if spec_record(s.idx@, i - 1).unwrap().len != 0 {
        if i - 1 <= u64::MAX - s.start_seq { (s.start_seq + i - 1) as u64 } else { s.start_seq }
    } else {
        last_held(s, i - 1)
    }
}

/// The newest match of path hash `h` among the first `k` segments: the first matching
/// record of the last segment that has one.
pub open spec fn newest_match(segs: Seq<Segment>, h: u64, k: int) -> Option<u64>
    decreases k,
{
    if k <= 0 {
        None
    } else {
        match first_match_from(segs[k - 1], h, 0) {
            Some(s) => Some(s),
            None => newest_match(segs, h, k - 1),
        }
    }
}

/// The segments of one shard, ordered by their first sequence.
pub struct SegmentedArchive {
    segments: Vec<Segment>,
    tombstones: Option<TombstoneStore>,
    dict_ref: Option<Vec<u8>>,
}

impl SegmentedArchive {
    /// The segments, in order of their first sequence.
    pub closed spec fn view(&self) -> Seq<Segment> {
        self.segments@
    }

    /// Whether `seq` is marked deleted in this archive's own tombstones.
    pub closed spec fn deleted(&self, seq: u64) -> bool {
        self.tombstones matches Some(t) && t@.contains(seq)
    }

    /// The sequences marked deleted.
    pub closed spec fn deleted_set(&self) -> Set<u64> {
        match self.tombstones {
            Some(t) => t@,
            None => Set::empty(),
        }
    }

    /// How many sequences the tombstones can mark (none without tombstones).
    pub closed spec fn mark_capacity(&self) -> nat {
        match self.tombstones {
            Some(t) => t.capacity(),
            None => 0,
        }
    }

    /// The dictionary that reads use when the caller gives none.
    pub closed spec fn dictionary(&self) -> Option<Seq<u8>> {
        match self.dict_ref {
            None => None,
            Some(d) => Some(d@),
        }
    }

    /// Whether the segments are ordered by their first sequence.
    pub closed spec fn wf(&self) -> bool {
        forall|a: int, b: int| 0 <= a < b < self.segments@.len() ==> (#[trigger] self.segments@[a]).start_seq
            <= (#[trigger] self.segments@[b]).start_seq
    }

    /// An archive with no segment.
    pub fn new(tombstones: Option<TombstoneStore>, dict_ref: Option<Vec<u8>>) -> (r: Self)
        ensures
            r.wf(),
            r@.len() == 0,
            forall|s: u64| r.deleted(s) <==> (tombstones matches Some(t) && t@.contains(s)),
            r.deleted_set() == match tombstones {
                Some(t) => t@,
                None => Set::<u64>::empty(),
            },
            r.mark_capacity() == match tombstones {
                Some(t) => t.capacity(),
                None => 0,
            },
            r.dictionary() == match dict_ref {
                None => None,
                Some(d) => Some(d@),
            },
    {
        SegmentedArchive { segments: Vec::new(), tombstones, dict_ref }
    }

    /// Adds a segment in its place by first sequence (after those with the same start).
    pub fn add_segment(&mut self, seg: Segment)
        requires
            old(self).wf(),
        ensures
            final(self).wf(),
            exists|i: int| 0 <= i <= old(self)@.len() && final(self)@ == old(self)@.insert(i, seg),
            final(self).deleted_set() == old(self).deleted_set(),
            final(self).mark_capacity() == old(self).mark_capacity(),
            forall|s: u64| final(self).deleted(s) == old(self).deleted(s),
            final(self).dictionary() == old(self).dictionary(),
    {
        let n = self.segments.len();
        let mut pos: usize = 0;
        while pos < n && self.segments[pos].start_seq <= seg.start_seq
            invariant
                n == self.segments@.len(),
                pos <= n,
                forall|i: int| 0 <= i < pos ==> (#[trigger] self.segments@[i]).start_seq <= seg.start_seq,
            decreases n - pos,
        {
            pos = pos + 1;
        }
        let ghost before = self.segments@;
        let ghost start = seg.start_seq;
        self.segments.insert(pos, seg);
        proof {
            assert(self.segments@ =~= before.insert(pos as int, seg));
            assert(0 <= pos <= old(self)@.len() && self.segments@ == old(self)@.insert(pos as int, seg));
            assert forall|a: int, b: int| 0 <= a < b < self.segments@.len() implies (#[trigger] self.segments@[a]).start_seq
                <= (#[trigger] self.segments@[b]).start_seq by {
                if b < pos {
                } else if b == pos {
                    assert(self.segments@[a] == before[a]);
                } else if a < pos {
                    assert(self.segments@[b] == before[b - 1]);
                    if pos < n {
                        assert(before[pos as int].start_seq > start);
                    }
                } else if a == pos {
                    assert(self.segments@[b] == before[b - 1]);
                    assert(before[pos as int].start_seq > start);
                    if b - 1 > pos {
                        assert(before[pos as int].start_seq <= before[b - 1].start_seq);
                    }
                } else {
                    assert(self.segments@[a] == before[a - 1]);
                    assert(self.segments@[b] == before[b - 1]);
                }
            }
        }
    }

    /// Number of segments.
    pub fn segment_count(&self) -> (r: usize)
        ensures
            r == self@.len(),
    {
        self.segments.len()
    }

    /// Whether `seq` is marked deleted.
    pub fn is_deleted(&self, seq: u64) -> (r: bool)
        ensures
            r == self.deleted(seq),
    {
        match &self.tombstones {
            None => false,
            Some(t) => t.is_deleted(seq),
        }
    }

    /// Marks `seq` deleted (where the archive keeps tombstones and `seq` is in their range).
    pub fn mark_deleted(&mut self, seq: u64)
        ensures
            final(self)@ == old(self)@,
            final(self).dictionary() == old(self).dictionary(),
            forall|s: u64| s != seq ==> final(self).deleted(s) == old(self).deleted(s),
            old(self).deleted(seq) ==> final(self).deleted(seq),
            (seq as nat) < old(self).mark_capacity() ==> final(self).deleted(seq),
            final(self).mark_capacity() == old(self).mark_capacity(),
            forall|s: u64| final(self).deleted_set().contains(s) == final(self).deleted(s),
            forall|s: u64| old(self).deleted_set().contains(s) == old(self).deleted(s),
    {
        match &mut self.tombstones {
            None => {},
            Some(t) => t.mark_deleted(seq),
        }
    }

    /// Index of the newest segment (last in order) that starts at or before `seq` and
    /// holds a message at `seq`.
    fn locate(&self, seq: u64) -> (r: Option<usize>)
        ensures
            match r {
                None => forall|k: int| 0 <= k < self@.len() ==> !seg_has(#[trigger] self@[k], seq),
                Some(k) => k < self@.len() && seg_has(self@[k as int], seq) && forall|k2: int| k < k2 < self@.len() ==> !seg_has(
                    #[trigger] self@[k2],
                    seq,
                ),
            },
    {
        let mut k = self.segments.len();
        while k > 0
            invariant
                k <= self.segments@.len(),
                forall|k2: int| k <= k2 < self.segments@.len() ==> !seg_has(#[trigger] self.segments@[k2], seq),
            decreases k,
        {
            let seg = &self.segments[k - 1];
            if seg.start_seq <= seq {
                if let Some(rec) = read_record(seg.idx.as_slice(), seq - seg.start_seq) {
                    if rec.len != 0 {
                        return Some(k - 1);
                    }
                }
            }
            k = k - 1;
        }
        None
    }

    /// The message stored at `seq`, decompressed: not found if `seq` is deleted or no
    /// segment holds a message there; otherwise read from the newest segment that does.
    pub fn get_message_by_seq(&self, seq: u64, dict: Option<&[u8]>) -> (r: Result<Vec<u8>, ArchiveError>)
        ensures
            self.deleted(seq) ==> r == Err::<Vec<u8>, ArchiveError>(ArchiveError::NotFound),
            (forall|k: int| 0 <= k < self@.len() ==> !seg_has(#[trigger] self@[k], seq)) ==> r == Err::<
                Vec<u8>,
                ArchiveError,
            >(ArchiveError::NotFound),
            forall|k: int| newest_holder(self@, k, seq) && !self.deleted(seq) && cluster_holds(
                #[trigger] self@[k].bin@,
                rec_at(self@[k], seq),
                match dict {
                    Some(d) => Some(d@),
                    None => self.dictionary(),
                },
            ) ==> r is Ok,
            r matches Ok(v) ==> !self.deleted(seq) && exists|k: int| 0 <= k < self@.len() && seg_has(#[trigger] self@[k], seq)
                && newest_holder(self@, k, seq) && read_ok(
                self@[k].bin@,
                spec_record(self@[k].idx@, seq - self@[k].start_seq).unwrap(),
                match dict {
                    Some(d) => Some(d@),
                    None => self.dictionary(),
                },
                v@,
            ),
    {
        if self.is_deleted(seq) {
            return Err(ArchiveError::NotFound);
        }
        let effective: Option<&[u8]> = match dict {
            Some(d) => Some(d),
            None => match &self.dict_ref {
                Some(d) => Some(d.as_slice()),
                None => None,
            },
        };
        match self.locate(seq) {
            None => Err(ArchiveError::NotFound),
            Some(k) => {
                let seg = &self.segments[k];
                let r = seg.get_decompressed_message_by_index(seq - seg.start_seq, effective);
                assert(r matches Ok(v) ==> seg_has(self@[k as int], seq));
                r
            },
        }
    }

    /// The compressed cluster that holds `seq`, as stored; if some other message of that
    /// cluster is deleted, the cluster rebuilt without the deleted messages (not found if
    /// none is left). Not found if `seq` is deleted or no segment holds it.
    pub fn get_raw_cluster_at_seq(&self, seq: u64) -> (r: Result<Vec<u8>, ArchiveError>)
        ensures
            self.deleted(seq) ==> r == Err::<Vec<u8>, ArchiveError>(ArchiveError::NotFound),
            (forall|k: int| 0 <= k < self@.len() ==> !seg_has(#[trigger] self@[k], seq)) ==> r == Err::<
                Vec<u8>,
                ArchiveError,
            >(ArchiveError::NotFound),
            r is Ok ==> !self.deleted(seq) && exists|k: int| 0 <= k < self@.len() && seg_has(#[trigger] self@[k], seq),
            forall|k: int| !self.deleted(seq) && #[trigger] rebuild_ok_at(self@, k, seq, self.deleted_set(), self.dictionary()) ==> r is Ok,
            r matches Ok(c) ==> exists|k: int|
                newest_holder(self@, k, seq) && served_cluster(#[trigger] self@[k], seq - self@[k].start_seq, self.dictionary(), self.deleted_set(), c@),
            forall|k: int| newest_holder(self@, k, seq) && !self.deleted(seq) && (#[trigger] rec_at(self@[k], seq)).bin_off
                + rec_at(self@[k], seq).c_len <= self@[k].bin@.len() && !cluster_touched(
                self@[k],
                rec_at(self@[k], seq).bin_off,
                self.deleted_set(),
            ) ==> (r matches Ok(c) && c@ == self@[k].bin@.subrange(
                rec_at(self@[k], seq).bin_off as int,
                rec_at(self@[k], seq).bin_off + rec_at(self@[k], seq).c_len,
            )),
    {
        if self.is_deleted(seq) {
            return Err(ArchiveError::NotFound);
        }
        let k = match self.locate(seq) {
            None => return Err(ArchiveError::NotFound),
            Some(k) => k,
        };
        let seg = &self.segments[k];
        let rel = seq - seg.start_seq;
        proof {
            assert forall|k2: int| newest_holder(self@, k2, seq) implies k2 == k as int by {
                if k2 < k {
                    assert(!seg_has(self@[k as int], seq));
                } else if k2 > k {
                    assert(!seg_has(self@[k2], seq));
                }
            }
            if self.tombstones is None {
                assert(!cluster_touched(*seg, rec_at(*seg, seq).bin_off, self.deleted_set()));
            }
        }
        assert(newest_holder(self@, k as int, seq));
        assert(self.dictionary() == dict_of(self.dict_ref));
        match &self.tombstones {
            None => match seg.get_raw_cluster_by_index(rel) {
                Ok(c) => {
                    let v = crate::car::copy_bytes(c);
                    assert(served_cluster(self@[k as int], seq - self@[k as int].start_seq, self.dictionary(), self.deleted_set(), v@));
                    Ok(v)
                },
                Err(e) => Err(e),
            },
            Some(ts) => filtered_cluster(seg, rel, ts, &self.dict_ref),
        }
    }

    /// The sequence of the most recent record whose path hash is `path_hash`, scanning
    /// segments newest first.
    pub fn find_seq_by_path_hash(&self, path_hash: u64) -> (r: Option<u64>)
        ensures
            r == newest_match(self@, path_hash, self@.len() as int),
            r matches Some(s) ==> exists|k: int| 0 <= k < self@.len() && (#[trigger] self@[k]).start_seq <= s
                && spec_record(self@[k].idx@, s - self@[k].start_seq) is Some && spec_record(self@[k].idx@, s - self@[k].start_seq).unwrap().path_hash == path_hash,
    {
        let mut k = self.segments.len();
        while k > 0
            invariant
                k <= self.segments@.len(),
                newest_match(self@, path_hash, self@.len() as int) == newest_match(self@, path_hash, k as int),
            decreases k,
        {
            let seg = &self.segments[k - 1];
            if let Some(s) = seg.find_seq_by_path_hash(path_hash) {
                assert(self@[k - 1] == *seg);
                return Some(s);
            }
            k = k - 1;
        }
        None
    }

    /// The sequence of the most recent record whose path hash is `path_hash` (the lookup
    /// behind delete-by-path).
    pub fn find_sequence_by_path(&self, path_hash: u64) -> (r: Option<u64>)
        ensures
            r == newest_match(self@, path_hash, self@.len() as int),
            r matches Some(s) ==> exists|k: int| 0 <= k < self@.len() && (#[trigger] self@[k]).start_seq <= s
                && spec_record(self@[k].idx@, s - self@[k].start_seq) is Some && spec_record(self@[k].idx@, s - self@[k].start_seq).unwrap().path_hash == path_hash,
    {
        self.find_seq_by_path_hash(path_hash)
    }

    /// The smallest first sequence of a segment.
    pub fn min_seq(&self) -> (r: Option<u64>)
        ensures
            self@.len() == 0 <==> r is None,
            r matches Some(s) ==> s == self@[0].start_seq,
    {
        if self.segments.len() == 0 {
            None
        } else {
            Some(self.segments[0].start_seq)
        }
    }

    /// The largest sequence that the last segment (by first sequence) holds a message at,
    /// or that segment's first sequence.
    pub fn max_seq(&self) -> (r: Option<u64>)
        ensures
            self@.len() == 0 <==> r is None,
            r matches Some(s) ==> s >= self@.last().start_seq,
            self@.len() > 0 ==> r == Some(last_held(self@.last(), record_count(self@.last().idx@))),
    {
        let n = self.segments.len();
        if n == 0 {
            return None;
        }
        let seg = &self.segments[n - 1];
        let start = seg.start_seq;
        let count = seg.msg_count();
        let mut i = count;
        while i > 0
            invariant
                i <= count,
                n == self.segments@.len(),
                n > 0,
                start == self.segments@[n - 1].start_seq,
                *seg == self.segments@[n - 1],
                count as int == record_count(seg.idx@),
                last_held(*seg, count as int) == last_held(*seg, i as int),
            decreases i,
        {
            if let Some(rec) = read_record(seg.idx.as_slice(), i - 1) {
                if rec.len != 0 {
                    if i - 1 <= u64::MAX - start {
                        return Some(start + (i - 1));
                    }
                    return Some(start);
                }
            }
            i = i - 1;
        }
        Some(start)
    }

    /// Moves the segments of `other` into this archive.
    pub fn merge(&mut self, other: SegmentedArchive)
        requires
            old(self).wf(),
        ensures
            final(self).wf(),
            final(self)@.len() == old(self)@.len() + other@.len(),
            forall|s: u64| final(self).deleted(s) == old(self).deleted(s),
            final(self).dictionary() == old(self).dictionary(),
            final(self).deleted_set() == old(self).deleted_set(),
            final(self).mark_capacity() == old(self).mark_capacity(),
    {
        let mut rest = other.segments;
        while rest.len() > 0
            invariant
                self.wf(),
                self@.len() + rest@.len() == old(self)@.len() + other@.len(),
                forall|s: u64| self.deleted(s) == old(self).deleted(s),
                self.dictionary() == old(self).dictionary(),
                self.deleted_set() == old(self).deleted_set(),
                self.mark_capacity() == old(self).mark_capacity(),
            decreases rest@.len(),
        {
            let seg = rest.pop().unwrap();
            self.add_segment(seg);
        }
    }

    /// Checks the Merkle root of the segment whose record range holds `seq`.
    pub fn verify_integrity_at_seq(&self, seq: u64, dict: Option<&[u8]>) -> (r: Result<bool, ArchiveError>)
        ensures
            (forall|k: int| 0 <= k < self@.len() ==> !((#[trigger] self@[k]).start_seq <= seq && seq - self@[k].start_seq
                < record_count(self@[k].idx@))) <==> r == Err::<bool, ArchiveError>(ArchiveError::NotFound),
            r is Ok || r == Err::<bool, ArchiveError>(ArchiveError::NotFound),
            r matches Ok(b) ==> exists|k: int, outs: Seq<Option<Seq<u8>>>|
                #![trigger reads_ok(self@[k].bin@, self@[k].idx@, dict_view(dict), outs)]
                0 <= k < self@.len() && self@[k].start_seq <= seq && seq - self@[k].start_seq < record_count(self@[k].idx@)
                    && reads_ok(self@[k].bin@, self@[k].idx@, dict_view(dict), outs) && b == (self@[k].root_hash@
                    == merkle_root(leaf_digests(somes(outs)))),
    {
        let mut k = self.segments.len();
        while k > 0
            invariant
                k <= self.segments@.len(),
                forall|k2: int| k <= k2 < self.segments@.len() ==> !((#[trigger] self.segments@[k2]).start_seq <= seq && seq
                    - self.segments@[k2].start_seq < record_count(self.segments@[k2].idx@)),
            decreases k,
        {
            let seg = &self.segments[k - 1];
            if seg.start_seq <= seq && seq - seg.start_seq < seg.msg_count() {
                assert(self@[k - 1].start_seq <= seq && seq - self@[k - 1].start_seq < record_count(self@[k - 1].idx@));
                return Ok(seg.verify_integrity(dict));
            }
            k = k - 1;
        }
        Err(ArchiveError::NotFound)
    }
}

/// Whether some message among the first `k` records of `seg` that share the cluster at
/// `bin_off` is marked in `deleted`.
pub open spec fn touched_upto(seg: Segment, bin_off: u64, deleted: Set<u64>, k: int) -> bool {
    exists|i: int|
        0 <= i < k && spec_record(seg.idx@, i) is Some && (#[trigger] spec_record(seg.idx@, i)).unwrap().bin_off == bin_off
            && spec_record(seg.idx@, i).unwrap().len != 0 && seg.start_seq + i <= u64::MAX && deleted.contains(
            (seg.start_seq + i) as u64,
        )
}

/// Whether some message of the cluster at `bin_off` in `seg` is marked in `deleted`.
pub open spec fn cluster_touched(seg: Segment, bin_off: u64, deleted: Set<u64>) -> bool {
    touched_upto(seg, bin_off, deleted, record_count(seg.idx@))
}

/// The sequences of the records of `seg`, among the first `k`, whose messages stand in
/// the cluster at `bin_off`, in record (sequence) order.
pub open spec fn cluster_seqs_upto(seg: Segment, bin_off: u64, k: int) -> Seq<u64>
    decreases k,
{
    if k <= 0 || k > record_count(seg.idx@) {
        Seq::empty()
    } else {
        let prev = cluster_seqs_upto(seg, bin_off, k - 1);
        let rec = spec_record(seg.idx@, k - 1).unwrap();
        if rec.bin_off == bin_off && rec.len != 0 && seg.start_seq + k - 1 <= u64::MAX {
            prev.push((seg.start_seq + k - 1) as u64)
        } else {
            prev
        }
    }
}

/// The sequences whose messages stand in the cluster at `bin_off`.
pub open spec fn cluster_seqs(seg: Segment, bin_off: u64) -> Seq<u64> {
    cluster_seqs_upto(seg, bin_off, record_count(seg.idx@))
}

/// The payloads of `ps` whose sequence (the one at the same position of `seqs`) is not
/// among `deleted`, in order.
pub open spec fn kept_payloads(ps: Seq<Seq<u8>>, seqs: Seq<u64>, deleted: Set<u64>) -> Seq<Seq<u8>>
    decreases ps.len(),
{
    if ps.len() == 0 || seqs.len() < ps.len() {
        Seq::empty()
    } else {
        let prev = kept_payloads(ps.drop_last(), seqs, deleted);
        if deleted.contains(seqs[ps.len() - 1]) {
            prev
        } else {
            prev.push(ps.last())
        }
    }
}

/// Whether `ps` are the payloads that the stored cluster of record `rel` of `seg` holds,
/// one per sequence of that cluster.
pub open spec fn stored_payloads(seg: Segment, rel: int, dict: Option<Seq<u8>>, ps: Seq<Seq<u8>>) -> bool {
    let rec = spec_record(seg.idx@, rel).unwrap();
    &&& rec.bin_off + rec.c_len <= seg.bin@.len()
    &&& seg.bin@.subrange(rec.bin_off as int, rec.bin_off + rec.c_len) == crate::codec::zstd_frame(
        crate::cluster::cluster_bytes(ps),
        dict,
    )
    &&& fits_cluster(ps)
    &&& ps.len() == cluster_seqs(seg, rec.bin_off).len()
}

/// The cluster of record `rel` of `seg`: as stored if no message of the cluster is
/// marked in `ts`; otherwise rebuilt from the payloads whose sequences are not marked,
/// and compressed again (not found if none is left).
fn filtered_cluster(seg: &Segment, rel: u64, ts: &TombstoneStore, dict_ref: &Option<Vec<u8>>) -> (r: Result<Vec<u8>, ArchiveError>)
    ensures
        r is Ok ==> spec_record(seg.idx@, rel as int) is Some,
        ({
            let rec = spec_record(seg.idx@, rel as int).unwrap();
            spec_record(seg.idx@, rel as int) is Some && rec.bin_off + rec.c_len <= seg.bin@.len() && !cluster_touched(
                *seg,
                rec.bin_off,
                ts@,
            ) ==> (r matches Ok(c) && c@ == seg.bin@.subrange(rec.bin_off as int, rec.bin_off + rec.c_len))
        }),
        r matches Ok(c) ==> served_cluster(*seg, rel as int, dict_of(*dict_ref), ts@, c@),
        forall|ps: Seq<Seq<u8>>|
            spec_record(seg.idx@, rel as int) is Some && crate::codec::raw_dictionary(dict_of(*dict_ref))
                && #[trigger] stored_payloads(*seg, rel as int, dict_of(*dict_ref), ps) && kept_payloads(
                ps,
                cluster_seqs(*seg, spec_record(seg.idx@, rel as int).unwrap().bin_off),
                ts@,
            ).len() > 0 ==> r is Ok,
{
    let raw = match seg.get_raw_cluster_by_index(rel) {
        Ok(c) => c,
        Err(e) => return Err(e),
    };
    let rec = read_record(seg.idx.as_slice(), rel).unwrap();
    let n = seg.msg_count();
    let mut cluster_seqs_v: Vec<u64> = Vec::new();
    let mut any_deleted = false;
    let mut i: u64 = 0;
    while i < n
        invariant
            i <= n,
            n as int == record_count(seg.idx@),
            !any_deleted ==> !touched_upto(*seg, rec.bin_off, ts@, i as int),
            any_deleted ==> touched_upto(*seg, rec.bin_off, ts@, i as int),
            cluster_seqs_v@ == cluster_seqs_upto(*seg, rec.bin_off, i as int),
        decreases n - i,
    {
        if let Some(ri) = read_record(seg.idx.as_slice(), i) {
            if ri.bin_off == rec.bin_off && ri.len != 0 && i <= u64::MAX - seg.start_seq {
                let s = seg.start_seq + i;
                cluster_seqs_v.push(s);
                if ts.is_deleted(s) {
                    any_deleted = true;
                    assert(spec_record(seg.idx@, i as int) == Some(ri));
                }
            }
        }
        i = i + 1;
    }
    let ghost seqs = cluster_seqs_v@;
    assert(seqs == cluster_seqs(*seg, rec.bin_off));
    if !any_deleted {
        return Ok(crate::car::copy_bytes(raw));
    }
    let dict: Option<&[u8]> = match dict_ref {
        Some(d) => Some(d.as_slice()),
        None => None,
    };
    assert(dict_view(dict) == dict_of(*dict_ref));
    let decompressed = match zstd_decompress(raw, dict) {
        Ok(d) => d,
        Err(_) => return Err(ArchiveError::Compression),
    };
    let payloads = match decode_cluster(decompressed.as_slice()) {
        None => return Ok(crate::car::copy_bytes(raw)),
        Some(p) => p,
    };
    if payloads.len() != cluster_seqs_v.len() {
        return Ok(crate::car::copy_bytes(raw));
    }
    let mut kept: Vec<Vec<u8>> = Vec::new();
    let mut j: usize = 0;
    assert(views(payloads@).take(0) =~= Seq::<Seq<u8>>::empty());
    assert(views(kept@) =~= kept_payloads(views(payloads@).take(0), seqs, ts@));
    while j < payloads.len()
        invariant
            j <= payloads@.len(),
            payloads@.len() == cluster_seqs_v@.len(),
            seqs == cluster_seqs_v@,
            fits_cluster(views(payloads@)),
            forall|q: int| 0 <= q < kept@.len() ==> (#[trigger] kept@[q])@.len() <= u32::MAX,
            views(kept@) == kept_payloads(views(payloads@).take(j as int), seqs, ts@),
            kept@.len() <= j,
        decreases payloads@.len() - j,
    {
        let ghost vp = views(payloads@);
        assert(vp.take(j + 1).drop_last() =~= vp.take(j as int));
        assert(vp.take(j + 1).last() == payloads@[j as int]@);
        if !ts.is_deleted(cluster_seqs_v[j]) {
            assert(vp[j as int] == payloads@[j as int]@);
            let ghost before = views(kept@);
            kept.push(crate::car::copy_bytes(payloads[j].as_slice()));
            assert(views(kept@) =~= before.push(payloads@[j as int]@));
        }
        j = j + 1;
    }
    assert(views(payloads@).take(payloads@.len() as int) =~= views(payloads@));
    if kept.len() == 0 {
        return Err(ArchiveError::NotFound);
    }
    assert(fits_cluster(views(kept@))) by {
        assert forall|q: int| 0 <= q < views(kept@).len() implies #[trigger] views(kept@)[q].len() <= u32::MAX by {
            assert(views(kept@)[q] == kept@[q]@);
        }
    }
    let rebuilt = encode_cluster(&kept);
    match zstd_compress(rebuilt.as_slice(), dict) {
        Ok(c) => {
            proof {
                assert forall|ps: Seq<Seq<u8>>|
                    #[trigger] stored_payloads(*seg, rel as int, dict_of(*dict_ref), ps) implies c@ == crate::codec::zstd_frame(
                    crate::cluster::cluster_bytes(kept_payloads(ps, seqs, ts@)),
                    dict_of(*dict_ref),
                ) by {
                    assert(decompressed@ == crate::cluster::cluster_bytes(ps));
                    assert(views(payloads@) == ps);
                }
            }
            Ok(c)
        },
        Err(_) => Err(ArchiveError::Compression),
    }
}

/// The contents of an optional owned dictionary.
pub open spec fn dict_of(d: Option<Vec<u8>>) -> Option<Seq<u8>> {
    match d {
        None => None,
        Some(v) => Some(v@),
    }
}

/// Whether `c` is a cluster that may be served for record `rel` of `seg`, given the
/// `deleted` sequences: the stored compressed cluster; or, where the stored cluster is a
/// frame of payloads `ps` (one per sequence of the cluster), the frame of those of `ps`
/// whose sequences are not deleted, in order.
pub open spec fn served_cluster(seg: Segment, rel: int, dict: Option<Seq<u8>>, deleted: Set<u64>, c: Seq<u8>) -> bool {
    let rec = spec_record(seg.idx@, rel).unwrap();
    ||| (rec.bin_off + rec.c_len <= seg.bin@.len() && c == seg.bin@.subrange(rec.bin_off as int, rec.bin_off + rec.c_len))
    ||| forall|ps: Seq<Seq<u8>>|
        #[trigger] stored_payloads(seg, rel, dict, ps) ==> c == crate::codec::zstd_frame(
            crate::cluster::cluster_bytes(kept_payloads(ps, cluster_seqs(seg, rec.bin_off), deleted)),
            dict,
        )
}

/// The shard that author `did` is routed to among `k` shards.
pub open spec fn shard_of(did: Seq<char>, k: nat) -> nat {
    (fx_str(did) as nat) % k
}

/// Routes author `did` to one of `k` shards by its FxHash.
pub fn route(did: &str, k: usize) -> (r: usize)
    requires
        k > 0,
    ensures
        r as nat == shard_of(did@, k as nat),
        r < k,
{
    (fx_hash_str(did) % (k as u64)) as usize
}

/// Law of routing: an author routed twice, among the same number of shards, lands in
/// the same shard.
pub proof fn lemma_shard_stability(a: Seq<char>, b: Seq<char>, k: nat)
    requires
        a == b,
        k > 0,
    ensures
        shard_of(a, k) == shard_of(b, k),
        shard_of(a, k) < k,
{
}

/// Whether the buffer `buf` with one more message of `len` bytes is within the layout's
/// limits, spanning `first` to `last`.
pub open spec fn fits_with(buf: Seq<crate::writer::PendingMessage>, first: u64, last: u64, len: nat, dict: Option<Seq<u8>>) -> bool {
    &&& buf.len() + 1 <= 65535
    &&& first <= last && last - first < 100_000_000
    &&& in_range(buf, first, last)
    &&& forall|j: int| 0 <= j < buf.len() ==> (#[trigger] buf[j]).data@.len() <= 60000
    &&& len <= 60000
    &&& crate::codec::raw_dictionary(dict)
}

/// Whether segment `k` is the newest holding `seq`, its cluster lies within the data, and
/// no message of that cluster is among `deleted`: the cluster can then be served.
pub open spec fn raw_ok_at(segs: Seq<Segment>, k: int, seq: u64, deleted: Set<u64>) -> bool {
    &&& newest_holder(segs, k, seq)
    &&& rec_at(segs[k], seq).bin_off + rec_at(segs[k], seq).c_len <= segs[k].bin@.len()
    &&& !cluster_touched(segs[k], rec_at(segs[k], seq).bin_off, deleted)
}

/// Whether segment `k` is the newest holding `seq`, and its stored cluster is a frame of
/// payloads of which some survive `deleted`: a rebuilt cluster can then be served.
pub open spec fn rebuild_ok_at(segs: Seq<Segment>, k: int, seq: u64, deleted: Set<u64>, dict: Option<Seq<u8>>) -> bool {
    &&& newest_holder(segs, k, seq)
    &&& crate::codec::raw_dictionary(dict)
    &&& exists|ps: Seq<Seq<u8>>|
        #[trigger] stored_payloads(segs[k], seq - segs[k].start_seq, dict, ps) && kept_payloads(
            ps,
            cluster_seqs(segs[k], rec_at(segs[k], seq).bin_off),
            deleted,
        ).len() > 0
}

/// An archive of `K` shards: one writer and one reader per shard, tombstones shared.
pub struct MultiShardArchive {
    writers: Vec<ArchiveWriter>,
    readers: Vec<SegmentedArchive>,
    tombstones: TombstoneStore,
    dict_ref: Option<Vec<u8>>,
}

impl MultiShardArchive {
    /// The invariant: as many writers as readers, at least one, each well formed.
    pub closed spec fn wf(&self) -> bool {
        &&& self.writers@.len() == self.readers@.len()
        &&& self.readers@.len() > 0
        &&& forall|i: int| 0 <= i < self.writers@.len() ==> (#[trigger] self.writers@[i]).wf()
        &&& forall|i: int| 0 <= i < self.readers@.len() ==> (#[trigger] self.readers@[i]).wf()
        &&& forall|i: int| 0 <= i < self.writers@.len() ==> (#[trigger] self.writers@[i]).shard() == i
        &&& forall|i: int| 0 <= i < self.readers@.len() ==> (#[trigger] self.readers@[i]).dictionary() is None
        &&& forall|i: int| 0 <= i < self.writers@.len() ==> (#[trigger] self.writers@[i]).dictionary() == self.dictionary()
        &&& forall|i: int, s: u64| 0 <= i < self.readers@.len() ==> !#[trigger] self.readers@[i].deleted(s)
    }

    /// Number of shards.
    pub closed spec fn shards(&self) -> nat {
        self.readers@.len()
    }

    /// The sequences marked deleted.
    pub closed spec fn deleted(&self) -> Set<u64> {
        self.tombstones@
    }

    /// The dictionary clusters are compressed with.
    pub closed spec fn dictionary(&self) -> Option<Seq<u8>> {
        match self.dict_ref {
            None => None,
            Some(d) => Some(d@),
        }
    }

    /// The threshold at which shard `i` hands over its buffer.
    pub closed spec fn shard_threshold(&self, i: int) -> nat {
        self.writers@[i].threshold()
    }

    /// The smallest sequence buffered in shard `i`.
    pub closed spec fn shard_first(&self, i: int) -> u64 {
        self.writers@[i].first_seq()
    }

    /// The largest sequence buffered in shard `i`.
    pub closed spec fn shard_last(&self, i: int) -> u64 {
        self.writers@[i].last_seq()
    }

    /// How many sequences the tombstones can mark.
    pub closed spec fn mark_capacity(&self) -> nat {
        self.tombstones.capacity()
    }

    /// The segments that shard `i` serves.
    pub closed spec fn shard_segments(&self, i: int) -> Seq<Segment> {
        self.readers@[i]@
    }

    /// The messages buffered in shard `i`, not yet laid out.
    pub closed spec fn buffered(&self, i: int) -> Seq<crate::writer::PendingMessage> {
        self.writers@[i]@
    }

    /// An archive of `num_shards` shards (at least one) whose writers hand over a segment
    /// every `segment_size` messages, with tombstones for sequences below
    /// `8 * tombstone_bytes`.
    pub fn new(num_shards: usize, segment_size: u64, dict: Option<Vec<u8>>, tombstone_bytes: usize) -> (r: Self)
        ensures
            r.wf(),
            r.shards() == if num_shards == 0 { 1 } else { num_shards as nat },
            r.deleted() == Set::<u64>::empty(),
            r.mark_capacity() == tombstone_bytes * 8,
            forall|i: int| 0 <= i < r.shards() ==> (#[trigger] r.buffered(i)).len() == 0,
            forall|i: int| 0 <= i < r.shards() ==> (#[trigger] r.shard_segments(i)).len() == 0,
            r.dictionary() == match dict {
                None => None,
                Some(d) => Some(d@),
            },
            forall|i: int| 0 <= i < r.shards() ==> #[trigger] r.shard_threshold(i) == segment_size,
    {
        let n = if num_shards == 0 { 1 } else { num_shards };
        let mut writers: Vec<ArchiveWriter> = Vec::new();
        let mut readers: Vec<SegmentedArchive> = Vec::new();
        let mut i: usize = 0;
        while i < n
            invariant
                i <= n,
                writers@.len() == i,
                readers@.len() == i,
                forall|j: int| 0 <= j < i ==> (#[trigger] writers@[j]).wf(),
                forall|j: int| 0 <= j < i ==> (#[trigger] readers@[j]).wf(),
                forall|j: int| 0 <= j < i ==> (#[trigger] writers@[j]).shard() == j,
                forall|j: int| 0 <= j < i ==> (#[trigger] writers@[j])@.len() == 0,
                forall|j: int| 0 <= j < i ==> (#[trigger] readers@[j]).dictionary() is None,
                forall|j: int, s: u64| 0 <= j < i ==> !#[trigger] readers@[j].deleted(s),
                forall|j: int| 0 <= j < i ==> (#[trigger] readers@[j])@.len() == 0,
                forall|j: int| 0 <= j < i ==> (#[trigger] writers@[j]).dictionary() == match dict {
                    None => None,
                    Some(v) => Some(v@),
                },
                forall|j: int| 0 <= j < i ==> (#[trigger] writers@[j]).threshold() == segment_size,
            decreases n - i,
        {
            let d = match &dict {
                None => None,
                Some(v) => Some(crate::car::copy_bytes(v.as_slice())),
            };
            writers.push(ArchiveWriter::new(i as u64, 0, segment_size, d));
            readers.push(SegmentedArchive::new(None, None));
            i = i + 1;
        }
        MultiShardArchive { writers, readers, tombstones: TombstoneStore::new(tombstone_bytes), dict_ref: dict }
    }

    /// Number of shards.
    pub fn reader_count(&self) -> (r: usize)
        ensures
            r == self.shards(),
    {
        self.readers.len()
    }

    /// Adds a laid-out segment to the reader of its shard (if that shard exists).
    pub fn add_segment(&mut self, files: SegmentFiles)
        requires
            old(self).wf(),
        ensures
            final(self).wf(),
            final(self).shards() == old(self).shards(),
            final(self).deleted() == old(self).deleted(),
            forall|i: int| 0 <= i < final(self).shards() ==> #[trigger] final(self).buffered(i) == old(self).buffered(i),
            forall|i: int| 0 <= i < final(self).shards() ==> #[trigger] final(self).shard_threshold(i) == old(self).shard_threshold(i),
            forall|i: int| 0 <= i < final(self).shards() ==> #[trigger] final(self).shard_first(i) == old(self).shard_first(i),
            forall|i: int| 0 <= i < final(self).shards() ==> #[trigger] final(self).shard_last(i) == old(self).shard_last(i),
            forall|i: int| 0 <= i < final(self).shards() && i != files.shard_id ==> #[trigger] final(self).shard_segments(i)
                == old(self).shard_segments(i),
            files.shard_id < old(self).shards() ==> final(self).shard_segments(files.shard_id as int).len() == old(
                self,
            ).shard_segments(files.shard_id as int).len() + 1,
            final(self).dictionary() == old(self).dictionary(),
    {
        let shard = files.shard_id;
        if shard >= self.readers.len() {
            return;
        }
        let seg = Segment::new(files.start_seq, files.bin, files.idx);
        let mut reader = self.readers.remove(shard);
        reader.add_segment(seg);
        self.readers.insert(shard, reader);
        proof {
            assert forall|i: int| 0 <= i < self.readers@.len() implies (#[trigger] self.readers@[i]).wf() by {
                if i < shard {
                    assert(self.readers@[i] == old(self).readers@[i]);
                } else if i > shard {
                    assert(self.readers@[i] == old(self).readers@[i]);
                }
            }
            assert forall|i: int| 0 <= i < self.readers@.len() && i != shard implies #[trigger] self.shard_segments(i)
                == old(self).shard_segments(i) by {
                assert(self.readers@[i] == old(self).readers@[i]);
            }
        }
    }

    /// Buffers a message in its author's shard. When that shard's buffer is full it is
    /// laid out as a segment, which the shard's reader then serves; the segment's files
    /// are returned so that they can be stored.
    pub fn ingest(&mut self, seq: u64, did: &str, path: &str, msg: &[u8]) -> (r: Result<Option<SegmentFiles>, ArchiveError>)
        requires
            old(self).wf(),
        ensures
            final(self).wf(),
            final(self).shards() == old(self).shards(),
            final(self).deleted() == old(self).deleted(),
            forall|i: int| 0 <= i < final(self).shards() && i != shard_of(did@, old(self).shards()) ==> #[trigger] final(self).buffered(i) == old(self).buffered(i),
            r matches Ok(None) ==> final(self).buffered(shard_of(did@, old(self).shards()) as int).last().seq == seq,
            ({
                let s = shard_of(did@, old(self).shards()) as int;
                let buf = old(self).buffered(s);
                &&& buf.len() + 1 < old(self).shard_threshold(s) ==> (r matches Ok(None) && final(self).buffered(s).drop_last()
                    == buf && crate::writer::msg_is(final(self).buffered(s).last(), did, seq, path, msg))
                &&& buf.len() + 1 >= old(self).shard_threshold(s) && fits_with(
                    buf,
                    crate::writer::next_first(buf.len(), old(self).shard_first(s), seq),
                    crate::writer::next_last(buf.len(), old(self).shard_last(s), seq),
                    msg@.len(),
                    old(self).dictionary(),
                ) ==> (r matches Ok(Some(f)) && f.shard_id == s && final(self).buffered(s).len() == 0
                    && final(self).shard_segments(s).len() == old(self).shard_segments(s).len() + 1)
            }),
    {
        let k = route(did, self.writers.len());
        let ghost before = self.writers@;
        let mut w = self.writers.remove(k);
        let ghost old_w = w;
        let out = w.append_message(seq, did, path, msg);
        let ghost new_buf = w@;
        self.writers.insert(k, w);
        proof {
            if out is Some {
                let pl = out.unwrap();
                let buf = old_w@;
                if fits_with(buf, crate::writer::next_first(buf.len(), old_w.first_seq(), seq), crate::writer::next_last(buf.len(), old_w.last_seq(), seq), msg@.len(), self.dictionary()) {
                    assert forall|j: int| 0 <= j < pl.pending@.len() implies (#[trigger] pl.pending@[j]).data@.len() <= 60000 by {
                        if j < buf.len() {
                            assert(pl.pending@[j] == pl.pending@.drop_last()[j]);
                        }
                    }
                    assert(layout_fits(pl.pending@, pl.start_seq, pl.max_seq, self.dictionary()));
                }
            }
        }
        proof {
            assert forall|i: int| 0 <= i < self.writers@.len() implies (#[trigger] self.writers@[i]).wf() && self.writers@[i].shard() == i by {
                if i != k {
                    assert(self.writers@[i] == before[i]);
                }
            }
            assert forall|i: int| 0 <= i < self.writers@.len() && i != k implies #[trigger] self.writers@[i]@ == before[i]@ by {
                assert(self.writers@[i] == before[i]);
            }
        }
        match out {
            None => Ok(None),
            Some(payload) => {
                let dict: Option<&[u8]> = match &self.dict_ref {
                    Some(d) => Some(d.as_slice()),
                    None => None,
                };
                assert(dict_view(dict) == self.dictionary());
                match ArchiveWriter::persist_payload(&payload, dict) {
                    Err(e) => Err(e),
                    Ok(None) => Ok(None),
                    Ok(Some(files)) => {
                        let copy = SegmentFiles {
                            shard_id: files.shard_id,
                            start_seq: files.start_seq,
                            bin: crate::car::copy_bytes(files.bin.as_slice()),
                            idx: crate::car::copy_bytes(files.idx.as_slice()),
                        };
                        self.add_segment(files);
                        Ok(Some(copy))
                    },
                }
            },
        }
    }

    /// Lays out every shard's buffer as a segment; returns the segments' files.
    pub fn shutdown(&mut self) -> (r: Result<Vec<SegmentFiles>, ArchiveError>)
        requires
            old(self).wf(),
        ensures
            final(self).wf(),
            final(self).shards() == old(self).shards(),
            final(self).deleted() == old(self).deleted(),
            r is Ok ==> forall|i: int| 0 <= i < final(self).shards() ==> (#[trigger] final(self).buffered(i)).len() == 0,
            (forall|i: int| 0 <= i < old(self).shards() ==> old(self).buffered(i).len() == 0 || layout_fits(
                #[trigger] old(self).buffered(i),
                old(self).shard_first(i),
                old(self).shard_last(i),
                old(self).dictionary(),
            )) ==> r is Ok,
    {
        let ghost all_fit = forall|i: int| 0 <= i < old(self).shards() ==> old(self).buffered(i).len() == 0 || layout_fits(
            #[trigger] old(self).buffered(i),
            old(self).shard_first(i),
            old(self).shard_last(i),
            old(self).dictionary(),
        );
        let mut out: Vec<SegmentFiles> = Vec::new();
        let n = self.writers.len();
        let mut i: usize = 0;
        while i < n
            invariant
                self.wf(),
                n == self.shards(),
                self.shards() == old(self).shards(),
                self.deleted() == old(self).deleted(),
                i <= n,
                forall|j: int| 0 <= j < i ==> (#[trigger] self.buffered(j)).len() == 0,
                self.dictionary() == old(self).dictionary(),
                all_fit == (forall|i: int| 0 <= i < old(self).shards() ==> old(self).buffered(i).len() == 0 || layout_fits(
                    #[trigger] old(self).buffered(i),
                    old(self).shard_first(i),
                    old(self).shard_last(i),
                    old(self).dictionary(),
                )),
                all_fit ==> forall|j: int| i <= j < n ==> self.buffered(j).len() == 0 || layout_fits(
                    #[trigger] self.buffered(j),
                    self.shard_first(j),
                    self.shard_last(j),
                    self.dictionary(),
                ),
            decreases n - i,
        {
            let ghost before = self.writers@;
            assert(forall|j: int| 0 <= j < i ==> (#[trigger] before[j])@.len() == 0) by {
                assert forall|j: int| 0 <= j < i implies (#[trigger] before[j])@.len() == 0 by {
                    assert(self.buffered(j).len() == 0);
                }
            }
            let ghost pre_ok = forall|j: int| i <= j < n ==> (#[trigger] before[j])@.len() == 0 || layout_fits(
                before[j]@,
                before[j].first_seq(),
                before[j].last_seq(),
                self.dictionary(),
            );
            assert(all_fit ==> pre_ok) by {
                if all_fit {
                    assert forall|j: int| i <= j < n implies (#[trigger] before[j])@.len() == 0 || layout_fits(
                        before[j]@,
                        before[j].first_seq(),
                        before[j].last_seq(),
                        self.dictionary(),
                    ) by {
                        assert(self.buffered(j) == before[j]@);
                        assert(self.shard_first(j) == before[j].first_seq());
                        assert(self.shard_last(j) == before[j].last_seq());
                    }
                }
            }
            let mut w = self.writers.remove(i);
            assert(w == before[i as int]);
            assert(w.dictionary() == self.dictionary());
            let res = w.finalize_segment();
            let ghost wv = w@;
            self.writers.insert(i, w);
            proof {
                assert forall|j: int| 0 <= j < self.writers@.len() implies (#[trigger] self.writers@[j]).wf() && self.writers@[j].shard() == j by {
                    if j != i {
                        assert(self.writers@[j] == before[j]);
                    }
                }
                assert forall|j: int| 0 <= j < i + 1 implies (#[trigger] self.buffered(j)).len() == 0 by {
                    if j != i {
                        assert(self.writers@[j] == before[j]);
                    } else {
                        assert(self.writers@[j]@ == wv);
                    }
                }
                if all_fit {
                    assert forall|j: int| i + 1 <= j < n implies self.buffered(j).len() == 0 || layout_fits(
                        #[trigger] self.buffered(j),
                        self.shard_first(j),
                        self.shard_last(j),
                        self.dictionary(),
                    ) by {
                        assert(self.writers@[j] == before[j]);
                        assert(self.buffered(j) == before[j]@);
                        assert(self.shard_first(j) == before[j].first_seq());
                        assert(self.shard_last(j) == before[j].last_seq());
                    }
                }
            }
            match res {
                Err(e) => return Err(e),
                Ok(None) => {},
                Ok(Some(files)) => {
                    let copy = SegmentFiles {
                        shard_id: files.shard_id,
                        start_seq: files.start_seq,
                        bin: crate::car::copy_bytes(files.bin.as_slice()),
                        idx: crate::car::copy_bytes(files.idx.as_slice()),
                    };
                    self.add_segment(files);
                    out.push(copy);
                },
            }
            i = i + 1;
        }
        Ok(out)
    }

    /// Marks `seq` deleted in the shared tombstones.
    pub fn mark_deleted(&mut self, seq: u64)
        requires
            old(self).wf(),
        ensures
            final(self).wf(),
            final(self).shards() == old(self).shards(),
            forall|i: int| 0 <= i < final(self).shards() ==> #[trigger] final(self).buffered(i) == old(self).buffered(i),
            forall|s: u64| s != seq ==> (final(self).deleted().contains(s) == old(self).deleted().contains(s)),
            old(self).deleted().contains(seq) ==> final(self).deleted().contains(seq),
            (seq as nat) < old(self).mark_capacity() ==> final(self).deleted().contains(seq),
            final(self).mark_capacity() == old(self).mark_capacity(),
    {
        self.tombstones.mark_deleted(seq);
    }

    /// Whether `seq` is marked deleted.
    pub fn is_deleted(&self, seq: u64) -> (r: bool)
        ensures
            r == self.deleted().contains(seq),
    {
        self.tombstones.is_deleted(seq)
    }

    /// Whether some shard's segment holds a message at `seq`.
    pub fn holds(&self, seq: u64) -> (r: bool)
        ensures
            r == exists|i: int, k: int| 0 <= i < self.shards() && 0 <= k < self.shard_segments(i).len() && seg_has(
                #[trigger] self.shard_segments(i)[k],
                seq,
            ),
    {
        let mut i: usize = 0;
        while i < self.readers.len()
            invariant
                i <= self.readers@.len(),
                forall|i2: int, k: int| 0 <= i2 < i && 0 <= k < self.shard_segments(i2).len() ==> !seg_has(
                    #[trigger] self.shard_segments(i2)[k],
                    seq,
                ),
            decreases self.readers@.len() - i,
        {
            assert(self.shard_segments(i as int) == self.readers@[i as int]@);
            if let Some(k) = self.readers[i].locate(seq) {
                assert(seg_has(self.shard_segments(i as int)[k as int], seq));
                return true;
            }
            i = i + 1;
        }
        false
    }

    /// Deletes the most recent record at `path` of author `did`: looks the path hash up
    /// in the author's shard and marks the sequence found. Returns that sequence.
    pub fn delete_by_path(&mut self, did: &str, path: &str) -> (r: Option<u64>)
        requires
            old(self).wf(),
        ensures
            final(self).wf(),
            final(self).shards() == old(self).shards(),
            forall|i: int| 0 <= i < final(self).shards() ==> #[trigger] final(self).buffered(i) == old(self).buffered(i),
            r is None ==> final(self).deleted() == old(self).deleted(),
            r matches Some(s) ==> forall|x: u64| x != s ==> (final(self).deleted().contains(x) == old(self).deleted().contains(x)),
            r == newest_match(
                old(self).shard_segments(shard_of(did@, old(self).shards()) as int),
                fx_str(path@),
                old(self).shard_segments(shard_of(did@, old(self).shards()) as int).len() as int,
            ),
            r matches Some(s) ==> ((s as nat) < old(self).mark_capacity() ==> final(self).deleted().contains(s)),
            final(self).mark_capacity() == old(self).mark_capacity(),
            forall|i: int| 0 <= i < final(self).shards() ==> #[trigger] final(self).shard_segments(i) == old(self).shard_segments(i),
    {
        let k = route(did, self.readers.len());
        let h = fx_hash_str(path);
        match self.readers[k].find_sequence_by_path(h) {
            None => None,
            Some(s) => {
                self.tombstones.mark_deleted(s);
                Some(s)
            },
        }
    }

    /// The smallest first sequence over all shards.
    pub fn min_seq(&self) -> (r: Option<u64>)
        ensures
            r is Some ==> exists|i: int| 0 <= i < self.shards() && (#[trigger] self.shard_segments(i)).len() > 0,
            r is None <==> forall|i: int| 0 <= i < self.shards() ==> (#[trigger] self.shard_segments(i)).len() == 0,
            r matches Some(m) ==> (exists|i: int| 0 <= i < self.shards() && (#[trigger] self.shard_segments(i)).len() > 0
                && self.shard_segments(i)[0].start_seq == m) && forall|i: int| 0 <= i < self.shards() && (#[trigger] self.shard_segments(i)).len() > 0
                ==> m <= self.shard_segments(i)[0].start_seq,
    {
        let mut best: Option<u64> = None;
        let mut i: usize = 0;
        while i < self.readers.len()
            invariant
                i <= self.readers@.len(),
                best is Some ==> exists|j: int| 0 <= j < self.shards() && (#[trigger] self.shard_segments(j)).len() > 0,
                best is None <==> forall|j: int| 0 <= j < i ==> (#[trigger] self.shard_segments(j)).len() == 0,
                best matches Some(m) ==> (exists|j: int| 0 <= j < i && (#[trigger] self.shard_segments(j)).len() > 0
                    && self.shard_segments(j)[0].start_seq == m) && forall|j: int| 0 <= j < i && (#[trigger] self.shard_segments(j)).len() > 0
                    ==> m <= self.shard_segments(j)[0].start_seq,
            decreases self.readers@.len() - i,
        {
            assert(self.shard_segments(i as int) == self.readers@[i as int]@);
            if let Some(m) = self.readers[i].min_seq() {
                assert(self.shard_segments(i as int).len() > 0);
                best = match best {
                    None => Some(m),
                    Some(b) => Some(if m < b { m } else { b }),
                };
            }
            i = i + 1;
        }
        best
    }

    /// The largest sequence over all shards.
    pub fn max_seq(&self) -> (r: Option<u64>)
        ensures
            r is Some ==> exists|i: int| 0 <= i < self.shards() && (#[trigger] self.shard_segments(i)).len() > 0,
    {
        let mut best: Option<u64> = None;
        let mut i: usize = 0;
        while i < self.readers.len()
            invariant
                i <= self.readers@.len(),
                best is Some ==> exists|j: int| 0 <= j < self.shards() && (#[trigger] self.shard_segments(j)).len() > 0,
            decreases self.readers@.len() - i,
        {
            if let Some(m) = self.readers[i].max_seq() {
                assert(self.shard_segments(i as int).len() > 0);
                best = match best {
                    None => Some(m),
                    Some(b) => Some(if m > b { m } else { b }),
                };
            }
            i = i + 1;
        }
        best
    }

    /// The message at `seq`, from the first shard that holds it; not found if `seq` is deleted.
    pub fn get_message_by_seq(&self, seq: u64) -> (r: Result<Vec<u8>, ArchiveError>)
        requires
            self.wf(),
        ensures
            self.deleted().contains(seq) ==> r == Err::<Vec<u8>, ArchiveError>(ArchiveError::NotFound),
            r is Ok ==> exists|i: int, k: int| 0 <= i < self.shards() && 0 <= k < self.shard_segments(i).len() && seg_has(
                #[trigger] self.shard_segments(i)[k],
                seq,
            ),
            forall|i: int, k: int|
                0 <= i < self.shards() && newest_holder(self.shard_segments(i), k, seq) && !self.deleted().contains(seq)
                    && cluster_holds(
                    (#[trigger] self.shard_segments(i)[k]).bin@,
                    rec_at(self.shard_segments(i)[k], seq),
                    self.dictionary(),
                ) ==> r is Ok,
            r matches Ok(v) ==> exists|i: int, k: int|
                #![trigger self.shard_segments(i)[k]]
                0 <= i < self.shards() && 0 <= k < self.shard_segments(i).len() && seg_has(self.shard_segments(i)[k], seq)
                    && read_ok(
                    self.shard_segments(i)[k].bin@,
                    spec_record(self.shard_segments(i)[k].idx@, seq - self.shard_segments(i)[k].start_seq).unwrap(),
                    self.dictionary(),
                    v@,
                ),
    {
        if self.tombstones.is_deleted(seq) {
            return Err(ArchiveError::NotFound);
        }
        let dict: Option<&[u8]> = match &self.dict_ref {
            Some(d) => Some(d.as_slice()),
            None => None,
        };
        let mut i: usize = 0;
        while i < self.readers.len()
            invariant
                i <= self.readers@.len(),
                !self.deleted().contains(seq),
                self.wf(),
                crate::car::opt_view(dict) == self.dictionary(),
                forall|i2: int, k: int|
                    0 <= i2 < i && newest_holder(self.shard_segments(i2), k, seq) ==> !cluster_holds(
                        (#[trigger] self.shard_segments(i2)[k]).bin@,
                        rec_at(self.shard_segments(i2)[k], seq),
                        self.dictionary(),
                    ),
            decreases self.readers@.len() - i,
        {
            let got = self.readers[i].get_message_by_seq(seq, dict);
            proof {
                let rd = self.readers@[i as int];
                assert(self.shard_segments(i as int) == rd@);
                assert(!rd.deleted(seq));
                assert(match dict {
                    Some(d) => Some(d@),
                    None => rd.dictionary(),
                } == self.dictionary());
            }
            if let Ok(data) = got {
                proof {
                    let rd = self.readers@[i as int];
                    let k = choose|k: int| 0 <= k < rd@.len() && seg_has(#[trigger] rd@[k], seq) && read_ok(
                        rd@[k].bin@,
                        spec_record(rd@[k].idx@, seq - rd@[k].start_seq).unwrap(),
                        match dict {
                            Some(d) => Some(d@),
                            None => rd.dictionary(),
                        },
                        data@,
                    );
                    assert(self.shard_segments(i as int) == rd@);
                    assert(seg_has(self.shard_segments(i as int)[k], seq));
                    assert(match dict {
                        Some(d) => Some(d@),
                        None => rd.dictionary(),
                    } == self.dictionary());
                }
                return Ok(data);
            }
            i = i + 1;
        }
        Err(ArchiveError::NotFound)
    }

    /// The compressed cluster that holds `seq`, from the first shard that holds it; not
    /// found if `seq` is deleted, or if every message of its cluster is.
    pub fn get_raw_cluster_at_seq(&self, seq: u64) -> (r: Result<Vec<u8>, ArchiveError>)
        ensures
            self.deleted().contains(seq) ==> r == Err::<Vec<u8>, ArchiveError>(ArchiveError::NotFound),
            r is Ok ==> exists|i: int, k: int| 0 <= i < self.shards() && 0 <= k < self.shard_segments(i).len() && seg_has(
                #[trigger] self.shard_segments(i)[k],
                seq,
            ),
            r matches Ok(c) ==> exists|i: int, k: int|
                0 <= i < self.shards() && newest_holder(self.shard_segments(i), k, seq) && served_cluster(
                    #[trigger] self.shard_segments(i)[k],
                    seq - self.shard_segments(i)[k].start_seq,
                    self.dictionary(),
                    self.deleted(),
                    c@,
                ),
            forall|i: int, k: int|
                0 <= i < self.shards() && !self.deleted().contains(seq) && #[trigger] rebuild_ok_at(
                    self.shard_segments(i),
                    k,
                    seq,
                    self.deleted(),
                    self.dictionary(),
                ) ==> r is Ok,
            forall|i: int, k: int|
                0 <= i < self.shards() && !self.deleted().contains(seq) && #[trigger] raw_ok_at(
                    self.shard_segments(i),
                    k,
                    seq,
                    self.deleted(),
                ) ==> r is Ok,
    {
        if self.tombstones.is_deleted(seq) {
            return Err(ArchiveError::NotFound);
        }
        let mut i: usize = 0;
        while i < self.readers.len()
            invariant
                i <= self.readers@.len(),
                !self.deleted().contains(seq),
                forall|i2: int, k: int| 0 <= i2 < i ==> !#[trigger] raw_ok_at(self.shard_segments(i2), k, seq, self.deleted()),
                forall|i2: int, k: int| 0 <= i2 < i ==> !#[trigger] rebuild_ok_at(
                    self.shard_segments(i2),
                    k,
                    seq,
                    self.deleted(),
                    self.dictionary(),
                ),
            decreases self.readers@.len() - i,
        {
            match self.raw_from(i, seq) {
                Ok(data) => {
                    proof {
                        let rd = self.readers@[i as int];
                        let k = choose|k: int| 0 <= k < rd@.len() && seg_has(#[trigger] rd@[k], seq);
                        assert(self.shard_segments(i as int) == rd@);
                        assert(seg_has(self.shard_segments(i as int)[k], seq));
                    }
                    return Ok(data);
                },
                Err(_) => {},
            }
            i = i + 1;
        }
        Err(ArchiveError::NotFound)
    }

    /// The cluster holding `seq` in shard `i`, with the shared tombstones applied.
    fn raw_from(&self, i: usize, seq: u64) -> (r: Result<Vec<u8>, ArchiveError>)
        requires
            i < self.readers@.len(),
            !self.deleted().contains(seq),
        ensures
            r is Ok ==> exists|k: int| 0 <= k < self.readers@[i as int]@.len() && seg_has(#[trigger] self.readers@[i as int]@[k], seq),
            forall|k: int| raw_ok_at(self.shard_segments(i as int), k, seq, self.deleted()) ==> r is Ok,
            forall|k: int| rebuild_ok_at(self.shard_segments(i as int), k, seq, self.deleted(), self.dictionary()) ==> r is Ok,
            r matches Ok(c) ==> exists|k: int|
                newest_holder(self.shard_segments(i as int), k, seq) && served_cluster(
                    #[trigger] self.shard_segments(i as int)[k],
                    seq - self.shard_segments(i as int)[k].start_seq,
                    self.dictionary(),
                    self.deleted(),
                    c@,
                ),
    {
        let reader = &self.readers[i];
        assert(self.shard_segments(i as int) == reader@);
        let k = match reader.locate(seq) {
            None => return Err(ArchiveError::NotFound),
            Some(k) => k,
        };
        proof {
            assert forall|k2: int| newest_holder(reader@, k2, seq) implies k2 == k as int by {
                if k2 < k {
                    assert(!seg_has(reader@[k as int], seq));
                } else if k2 > k {
                    assert(!seg_has(reader@[k2], seq));
                }
            }
        }
        let seg = &reader.segments[k];
        assert(newest_holder(self.shard_segments(i as int), k as int, seq));
        assert(self.dictionary() == dict_of(self.dict_ref));
        filtered_cluster(seg, seq - seg.start_seq, &self.tombstones, &self.dict_ref)
    }
}

} // verus!
