//! The shard writer: buffers messages by author and lays a full buffer out as one
//! segment (clusters compressed end to end, the index, the Merkle root).
use vstd::prelude::*;
use crate::car::{bytes_eq, copy_bytes};
use crate::cluster::{append_bytes, encode_cluster, fits_cluster, views};
use crate::codec::{dict_view, fx_hash_str, fx_str, zstd_compress};
use crate::merkle::MerkleTree;
use crate::segment::{
    cluster_holds, encode_record, lemma_read_back, lemma_record_round_trip, read_ok, record_bytes, record_count,
    reads_ok, somes, spec_record, stored, ArchiveError, IndexRecord,
    RECORD_SIZE, ROOT_SIZE,
};
use vstd::string::StringSliceAdditionalSpecFns;

verus! {

/// One buffered message.
pub struct PendingMessage {
    pub author: Vec<u8>,
    pub seq: u64,
    pub path: String,
    pub data: Vec<u8>,
}

/// A frozen buffer, ready to be laid out as one segment: its messages in arrival order.
pub struct SegmentPayload {
    pub start_seq: u64,
    pub max_seq: u64,
    pub count: u64,
    pub pending: Vec<PendingMessage>,
    pub shard_id: usize,
}

/// The two files of a segment, as bytes, with the name they go by (`s{shard}_{start}`).
pub struct SegmentFiles {
    pub shard_id: usize,
    pub start_seq: u64,
    pub bin: Vec<u8>,
    pub idx: Vec<u8>,
}

/// Whether some buffered message carries sequence `s`.
pub open spec fn holds_seq(p: Seq<PendingMessage>, s: u64) -> bool {
    exists|j: int| 0 <= j < p.len() && (#[trigger] p[j]).seq == s
}

/// Whether every buffered message lies in `[start, max]`.
pub open spec fn in_range(p: Seq<PendingMessage>, start: u64, max: u64) -> bool {
    forall|j: int| 0 <= j < p.len() ==> start <= (#[trigger] p[j]).seq <= max
}

/// Whether `a` sorts strictly before `b`, bytewise.
pub open spec fn bytes_lt(a: Seq<u8>, b: Seq<u8>) -> bool
    decreases a.len(),
{
    if a.len() == 0 {
        b.len() > 0
    } else if b.len() == 0 {
        false
    } else if a[0] != b[0] {
        a[0] < b[0]
    } else {
        bytes_lt(a.subrange(1, a.len() as int), b.subrange(1, b.len() as int))
    }
}

/// Lexicographic byte order.
pub fn less_bytes(a: &[u8], b: &[u8]) -> (r: bool)
    ensures
        r == bytes_lt(a@, b@),
{
    let mut k: usize = 0;
    assert(a@.subrange(0, a@.len() as int) =~= a@);
    assert(b@.subrange(0, b@.len() as int) =~= b@);
    while k < a.len() && k < b.len()
        invariant
            k <= a@.len(),
            k <= b@.len(),
            bytes_lt(a@, b@) == bytes_lt(a@.subrange(k as int, a@.len() as int), b@.subrange(k as int, b@.len() as int)),
            decreases a@.len() - k,
    {
        if a[k] != b[k] {
            return a[k] < b[k];
        }
        proof {
            let sa = a@.subrange(k as int, a@.len() as int);
            let sb = b@.subrange(k as int, b@.len() as int);
            assert(sa.subrange(1, sa.len() as int) =~= a@.subrange(k + 1, a@.len() as int));
            assert(sb.subrange(1, sb.len() as int) =~= b@.subrange(k + 1, b@.len() as int));
        }
        k = k + 1;
    }
    k < b.len()
}

/// The shard writer.
pub struct ArchiveWriter {
    current_start_seq: u64,
    current_max_seq: u64,
    current_count: u64,
    max_segment_messages: u64,
    dict: Option<Vec<u8>>,
    /// Compressed bytes laid out so far.
    pub total_compressed_bytes: u64,
    pending: Vec<PendingMessage>,
    shard_id: usize,
}

impl ArchiveWriter {
    /// The writer's invariant: the counter counts the buffer, whose messages lie between
    /// the smallest and the largest sequence seen, and a full buffer has been handed over.
    pub closed spec fn wf(&self) -> bool {
        &&& self.current_count == self.pending@.len()
        &&& self.pending@.len() > 0 ==> self.current_start_seq <= self.current_max_seq
        &&& in_range(self.pending@, self.current_start_seq, self.current_max_seq)
        &&& self.current_count < self.max_segment_messages || self.current_count == 0
    }

    /// The buffered messages, in arrival order.
    pub closed spec fn view(&self) -> Seq<PendingMessage> {
        self.pending@
    }

    /// The smallest sequence buffered.
    pub closed spec fn first_seq(&self) -> u64 {
        self.current_start_seq
    }

    /// The largest sequence buffered.
    pub closed spec fn last_seq(&self) -> u64 {
        self.current_max_seq
    }

    /// The threshold at which a buffer is handed over.
    pub closed spec fn threshold(&self) -> nat {
        self.max_segment_messages as nat
    }

    /// The shard this writer serves.
    pub closed spec fn shard(&self) -> usize {
        self.shard_id
    }

    /// The dictionary clusters are compressed with.
    pub closed spec fn dictionary(&self) -> Option<Seq<u8>> {
        match self.dict {
            None => None,
            Some(d) => Some(d@),
        }
    }

    /// A writer for shard `shard_id` that hands over a buffer every `max_messages` messages.
    pub fn new(shard_id: u64, start_seq: u64, max_messages: u64, dict: Option<Vec<u8>>) -> (r: Self)
        ensures
            r.wf(),
            r@.len() == 0,
            r.threshold() == max_messages,
            r.shard() == shard_id as usize,
            r.dictionary() == match dict {
                None => None,
                Some(d) => Some(d@),
            },
    {
        ArchiveWriter {
            current_start_seq: start_seq,
            current_max_seq: 0,
            current_count: 0,
            max_segment_messages: max_messages,
            dict,
            total_compressed_bytes: 0,
            pending: Vec::new(),
            shard_id: shard_id as usize,
        }
    }

    /// Buffers a message. When the buffer reaches the threshold it is taken out and
    /// returned with the new message, and the writer starts empty.
    pub fn append_message(&mut self, seq: u64, did: &str, path: &str, data: &[u8]) -> (r: Option<SegmentPayload>)
        requires
            old(self).wf(),
        ensures
            final(self).wf(),
            final(self).threshold() == old(self).threshold(),
            final(self).shard() == old(self).shard(),
            final(self).dictionary() == old(self).dictionary(),
            old(self)@.len() + 1 >= old(self).threshold() <==> r is Some,
            ({
                &&& r is None ==> final(self)@.len() == old(self)@.len() + 1
                    && final(self)@.drop_last() == old(self)@ && msg_is(final(self)@.last(), did, seq, path, data)
                &&& r matches Some(p) ==> final(self)@.len() == 0 && p.pending@.len() == old(self)@.len() + 1
                    && p.count == p.pending@.len() && p.pending@.drop_last() == old(self)@
                    && msg_is(p.pending@.last(), did, seq, path, data)
                    && in_range(p.pending@, p.start_seq, p.max_seq) && p.start_seq <= p.max_seq
                    && p.shard_id == old(self).shard() && p.start_seq == next_first(old(self)@.len(), old(self).first_seq(), seq)
                    && p.max_seq == next_last(old(self)@.len(), old(self).last_seq(), seq)
                &&& r is None ==> final(self).first_seq() == next_first(old(self)@.len(), old(self).first_seq(), seq)
                    && final(self).last_seq() == next_last(old(self)@.len(), old(self).last_seq(), seq)
            }),
    {
        if self.pending.len() == 0 {
            self.current_start_seq = seq;
            self.current_max_seq = seq;
        } else {
            if seq > self.current_max_seq {
                self.current_max_seq = seq;
            }
            if seq < self.current_start_seq {
                self.current_start_seq = seq;
            }
        }
        let msg = PendingMessage {
            author: copy_bytes(did.as_bytes()),
            seq,
            path: path.to_owned(),
            data: copy_bytes(data),
        };
        self.pending.push(msg);
        self.current_count = self.current_count + 1;
        assert(self.pending@.drop_last() =~= old(self).pending@);
        if self.current_count >= self.max_segment_messages {
            return Some(self.take_out());
        }
        None
    }

    /// Takes the buffer out as a payload; the writer starts empty.
    pub fn take_payload(&mut self) -> (r: SegmentPayload)
        requires
            old(self).wf(),
        ensures
            final(self).wf(),
            final(self)@.len() == 0,
            final(self).threshold() == old(self).threshold(),
            final(self).shard() == old(self).shard(),
            final(self).dictionary() == old(self).dictionary(),
            r.pending@ == old(self)@,
            r.count == r.pending@.len(),
            r.pending@.len() > 0 ==> r.start_seq <= r.max_seq,
            in_range(r.pending@, r.start_seq, r.max_seq),
            r.shard_id == old(self).shard(),
            r.start_seq == old(self).first_seq(),
            r.max_seq == old(self).last_seq(),
    {
        self.take_out()
    }

    /// Hands the buffer over and lays it out at once as one segment.
    pub fn finalize_segment(&mut self) -> (r: Result<Option<SegmentFiles>, ArchiveError>)
        requires
            old(self).wf(),
        ensures
            final(self).wf(),
            final(self)@.len() == 0,
            final(self).threshold() == old(self).threshold(),
            final(self).shard() == old(self).shard(),
            final(self).dictionary() == old(self).dictionary(),
            old(self)@.len() == 0 <==> r matches Ok(None),
            layout_fits(old(self)@, old(self).first_seq(), old(self).last_seq(), old(self).dictionary()) ==> r matches Ok(
                Some(_),
            ),
            r matches Ok(Some(f)) ==> {
                &&& f.shard_id == old(self).shard()
                &&& f.start_seq == old(self).first_seq()
                &&& record_count(f.idx@) == old(self).last_seq() - old(self).first_seq() + 1
                &&& f.idx@.len() == 32 + 28 * (old(self).last_seq() - old(self).first_seq() + 1)
                &&& exists|gs: Seq<(Seq<u8>, Seq<usize>)>|
                    #[trigger] groups_by_author(old(self)@, gs) && f.bin@ == frames_concat(
                        old(self)@,
                        gs,
                        old(self).dictionary(),
                        gs.len() as int,
                    )
                &&& forall|rel: int| 0 <= rel <= old(self).last_seq() - old(self).first_seq() && !holds_seq(
                    old(self)@,
                    (old(self).first_seq() + rel) as u64,
                ) ==> #[trigger] spec_record(f.idx@, rel) == Some(gap_record())
                &&& distinct_seqs(old(self)@) ==> forall|j: int| 0 <= j < old(self)@.len() ==> #[trigger] kept(
                    f.idx@,
                    f.bin@,
                    old(self).dictionary(),
                    old(self)@,
                    old(self).first_seq(),
                    j,
                )
                &&& distinct_seqs(old(self)@) ==> f.idx@.subrange(0, 32) == crate::merkle::merkle_root(
                    crate::merkle::leaf_digests(
                        seq_ordered(old(self)@, old(self).first_seq(), old(self).last_seq() - old(self).first_seq() + 1),
                    ),
                )
            },
    {
        let payload = self.take_out();
        let dict = match &self.dict {
            None => None,
            Some(d) => Some(d.as_slice()),
        };
        assert(dict_view(dict) == self.dictionary());
        let r = Self::persist_payload(&payload, dict);
        if let Ok(Some(f)) = &r {
            let added = f.bin.len() as u64;
            self.total_compressed_bytes = self.total_compressed_bytes.saturating_add(added);
        }
        r
    }

    /// Lays a payload out as one segment: one compressed cluster per author (authors
    /// in byte order, each cluster's messages in arrival order), the clusters end to end;
    /// then the index: the Merkle root over the payloads in sequence order, and one record
    /// per sequence from the first to the largest, zero for a gap. Nothing is laid out for
    /// an empty payload; a payload within `layout_fits` is always laid out.
    pub fn persist_payload(payload: &SegmentPayload, dict: Option<&[u8]>) -> (r: Result<Option<SegmentFiles>, ArchiveError>)
        ensures
            payload.pending@.len() == 0 <==> r matches Ok(None),
            layout_fits(payload.pending@, payload.start_seq, payload.max_seq, dict_view(dict)) ==> r matches Ok(Some(_)),
            payload.pending@.len() > 0 && (payload.start_seq > payload.max_seq || !in_range(
                payload.pending@,
                payload.start_seq,
                payload.max_seq,
            )) ==> r == Err::<Option<SegmentFiles>, ArchiveError>(ArchiveError::Corrupt),
            r matches Ok(Some(f)) ==> {
                &&& f.shard_id == payload.shard_id
                &&& f.start_seq == payload.start_seq
                &&& payload.start_seq <= payload.max_seq
                &&& f.idx@.len() == 32 + 28 * (payload.max_seq - payload.start_seq + 1)
                &&& record_count(f.idx@) == payload.max_seq - payload.start_seq + 1
                &&& forall|rel: int| 0 <= rel <= payload.max_seq - payload.start_seq && !holds_seq(
                    payload.pending@,
                    (payload.start_seq + rel) as u64,
                ) ==> #[trigger] spec_record(f.idx@, rel) == Some(gap_record())
                &&& distinct_seqs(payload.pending@) ==> forall|j: int| 0 <= j < payload.pending@.len() ==> #[trigger] kept(
                    f.idx@,
                    f.bin@,
                    dict_view(dict),
                    payload.pending@,
                    payload.start_seq,
                    j,
                )
                &&& exists|gs: Seq<(Seq<u8>, Seq<usize>)>|
                    #[trigger] groups_by_author(payload.pending@, gs) && f.bin@ == frames_concat(
                        payload.pending@,
                        gs,
                        dict_view(dict),
                        gs.len() as int,
                    )
                &&& distinct_seqs(payload.pending@) ==> f.idx@.subrange(0, 32) == crate::merkle::merkle_root(
                    crate::merkle::leaf_digests(
                        seq_ordered(payload.pending@, payload.start_seq, payload.max_seq - payload.start_seq + 1),
                    ),
                )
            },
    {
        let p = &payload.pending;
        if p.len() == 0 {
            return Ok(None);
        }
        let start = payload.start_seq;
        let max = payload.max_seq;
        if start > max {
            return Err(ArchiveError::Corrupt);
        }
        let mut q: usize = 0;
        while q < p.len()
            invariant
                q <= p@.len(),
                p@ == payload.pending@,
                p@.len() > 0,
                start == payload.start_seq,
                max == payload.max_seq,
                forall|j: int| 0 <= j < q ==> start <= (#[trigger] p@[j]).seq <= max,
            decreases p@.len() - q,
        {
            if p[q].seq < start || p[q].seq > max {
                assert(!layout_fits(p@, start, max, dict_view(dict))) by {
                    assert(!(start <= p@[q as int].seq <= max));
                }
                return Err(ArchiveError::Corrupt);
            }
            q = q + 1;
        }
        assert(in_range(p@, start, max));
        let ghost fits = layout_fits(p@, start, max, dict_view(dict));
        if max - start >= ((usize::MAX - ROOT_SIZE) / RECORD_SIZE) as u64 {
            assert(!fits) by {
                assert(usize::MAX >= 0xffff_ffff);
            }
            return Err(ArchiveError::TooLarge);
        }
        let span = (max - start) as usize + 1;
        let mut table: Vec<IndexRecord> = Vec::new();
        let mut data_at: Vec<Option<usize>> = Vec::new();
        let mut t: usize = 0;
        while t < span
            invariant
                t <= span,
                table@.len() == t,
                data_at@.len() == t,
                forall|i: int| 0 <= i < t ==> #[trigger] table@[i] == gap_record(),
                forall|i: int| 0 <= i < t ==> #[trigger] data_at@[i] is None,
            decreases span - t,
        {
            table.push(IndexRecord { bin_off: 0, c_len: 0, inner_off: 0, len: 0, path_hash: 0 });
            data_at.push(None);
            t = t + 1;
        }
        let groups = group_by_author(p);
        let ghost dv = dict_view(dict);
        let ghost d = distinct_seqs(p@);
        let mut bin: Vec<u8> = Vec::new();
        let mut g: usize = 0;
        while g < groups.len()
            invariant
                p@.len() > 0,
                p@ == payload.pending@,
                start == payload.start_seq,
                max == payload.max_seq,
                in_range(p@, start, max),
                start <= max,
                dv == dict_view(dict),
                d == distinct_seqs(p@),
                fits == layout_fits(p@, start, max, dv),
                groups@.len() <= p@.len(),
                forall|h: int| 0 <= h < groups@.len() ==> (#[trigger] groups@[h]).1@.len() <= p@.len(),
                fits ==> bin@.len() <= g * 4294967296,
                bin@ == frames_concat(p@, group_view(groups@), dv, g as int),
                g <= groups@.len(),
                span == max - start + 1,
                table@.len() == span,
                data_at@.len() == span,
                forall|h: int, k: int| 0 <= h < groups@.len() && 0 <= k < groups@[h].1@.len() ==> (#[trigger] groups@[h].1@[k]) < p@.len(),
                forall|i: int| 0 <= i < span && !holds_seq(p@, (start + i) as u64) ==> #[trigger] table@[i] == gap_record(),
                forall|i: int| 0 <= i < span ==> (#[trigger] data_at@[i] matches Some(j) ==> j < p@.len() && p@[j as int].seq == start + i),
                d ==> forall|h: int, k: int| 0 <= h < g && 0 <= k < groups@[h].1@.len() ==> placed(
                    table@,
                    data_at@,
                    bin@,
                    dv,
                    p@,
                    start,
                    #[trigger] groups@[h].1@[k] as int,
                ),
            decreases groups@.len() - g,
        {
            let idxs = &groups[g].1;
            let n = idxs.len();
            if n > 65535 {
                assert(!fits) by {
                    assert(groups@[g as int].1@.len() <= p@.len());
                }
                return Err(ArchiveError::TooLarge);
            }
            let mut payloads: Vec<Vec<u8>> = Vec::new();
            let mut k: usize = 0;
            while k < n
                invariant
                    k <= n,
                    n == idxs@.len(),
                    n <= 65535,
                    idxs == &groups@[g as int].1,
                    g < groups@.len(),
                    payloads@.len() == k,
                    forall|h: int, kk: int| 0 <= h < groups@.len() && 0 <= kk < groups@[h].1@.len() ==> (#[trigger] groups@[h].1@[kk]) < p@.len(),
                    forall|i: int| 0 <= i < k ==> (#[trigger] payloads@[i])@.len() <= u32::MAX,
                    forall|i: int| 0 <= i < k ==> (#[trigger] payloads@[i])@ == p@[idxs@[i] as int].data@,
                    p@.len() > 0,
                    p@ == payload.pending@,
                    start == payload.start_seq,
                    max == payload.max_seq,
                    in_range(p@, start, max),
                    start <= max,
                    fits == layout_fits(p@, start, max, dict_view(dict)),
                    fits ==> forall|i: int| 0 <= i < k ==> (#[trigger] payloads@[i])@.len() <= 60000,
                decreases n - k,
            {
                let d = &p[idxs[k]].data;
                if d.len() > u32::MAX as usize {
                    assert(!fits) by {
                        assert(p@[idxs@[k as int] as int].data@.len() == d@.len());
                    }
                    return Err(ArchiveError::TooLarge);
                }
                payloads.push(copy_bytes(d.as_slice()));
                k = k + 1;
            }
            let ghost vs = views(payloads@);
            assert(fits_cluster(vs)) by {
                assert forall|i: int| 0 <= i < vs.len() implies #[trigger] vs[i].len() <= u32::MAX by {
                    assert(vs[i] == payloads@[i]@);
                }
            }
            let raw = encode_cluster(&payloads);
            proof {
                if fits {
                    assert forall|i: int| 0 <= i < vs.len() implies (#[trigger] vs[i]).len() <= 60000 by {
                        assert(vs[i] == payloads@[i]@);
                    }
                    crate::cluster::lemma_concat_bound(vs, 60000);
                    crate::cluster::lemma_len_table_len(vs);
                    vstd::bytes::lemma_auto_spec_u16_to_from_le_bytes();
                    assert(vs.len() * 60000 <= 65535 * 60000) by (nonlinear_arith)
                        requires
                            vs.len() <= 65535,
                    ;
                    assert(raw@.len() <= 3932362142);
                }
            }
            let compressed = match zstd_compress(raw.as_slice(), dict) {
                Ok(c) => c,
                Err(_) => return Err(ArchiveError::Compression),
            };
            if compressed.len() > u32::MAX as usize || bin.len() as u64 > u64::MAX - compressed.len() as u64 {
                proof {
                    if fits {
                        assert(g * 4294967296 <= 65535 * 4294967296) by (nonlinear_arith)
                            requires
                                g <= 65535,
                        ;
                    }
                }
                return Err(ArchiveError::TooLarge);
            }
            let bin_off = bin.len() as u64;
            let c_len = compressed.len() as u32;
            let ghost old_bin = bin@;
            append_bytes(&mut bin, compressed.as_slice());
            proof {
                assert(vs =~= group_payloads(p@, idxs@)) by {
                    assert forall|i: int| 0 <= i < vs.len() implies vs[i] == group_payloads(p@, idxs@)[i] by {
                        assert(vs[i] == payloads@[i]@);
                    }
                }
                assert(group_view(groups@)[g as int].1 == idxs@);
                assert(bin@ == frames_concat(p@, group_view(groups@), dv, g + 1));
            }
            proof {
                assert(bin@.subrange(bin_off as int, bin_off + c_len) =~= compressed@);
                if d {
                    assert forall|h: int, kk: int| 0 <= h < g && 0 <= kk < groups@[h].1@.len() implies placed(
                        table@,
                        data_at@,
                        bin@,
                        dv,
                        p@,
                        start,
                        #[trigger] groups@[h].1@[kk] as int,
                    ) by {
                        let j = groups@[h].1@[kk] as int;
                        assert(placed(table@, data_at@, old_bin, dv, p@, start, j));
                        let rec = table@[p@[j].seq - start];
                        assert(bin@.subrange(rec.bin_off as int, rec.bin_off + rec.c_len) =~= old_bin.subrange(rec.bin_off as int, rec.bin_off + rec.c_len));
                    }
                }
            }
            let mut inner: u64 = 2 + 4 * n as u64;
            let mut k: usize = 0;
            assert(vs.take(0) =~= Seq::<Seq<u8>>::empty());
            while k < n
                invariant
                    k <= n,
                    n == idxs@.len(),
                    idxs == &groups@[g as int].1,
                    g < groups@.len(),
                    vs == views(payloads@),
                    vs.len() == n,
                    fits_cluster(vs),
                    forall|i: int| 0 <= i < n ==> (#[trigger] payloads@[i])@ == p@[idxs@[i] as int].data@,
                    bin_off + c_len <= bin@.len(),
                    bin@.subrange(bin_off as int, bin_off + c_len) == crate::codec::zstd_frame(crate::cluster::cluster_bytes(vs), dv),
                    inner as int == crate::cluster::inner_offset(vs, k as int),
                    fits == layout_fits(p@, start, max, dv),
                    fits ==> crate::cluster::cluster_bytes(vs).len() <= 3932362142,
                    bin@ == frames_concat(p@, group_view(groups@), dv, g + 1),
                    p@.len() > 0,
                    p@ == payload.pending@,
                    start == payload.start_seq,
                    max == payload.max_seq,
                    in_range(p@, start, max),
                    start <= max,
                    dv == dict_view(dict),
                    d == distinct_seqs(p@),
                    span == max - start + 1,
                    table@.len() == span,
                    data_at@.len() == span,
                    forall|h: int, kk: int| 0 <= h < groups@.len() && 0 <= kk < groups@[h].1@.len() ==> (#[trigger] groups@[h].1@[kk]) < p@.len(),
                    forall|i: int| 0 <= i < span && !holds_seq(p@, (start + i) as u64) ==> #[trigger] table@[i] == gap_record(),
                    forall|i: int| 0 <= i < span ==> (#[trigger] data_at@[i] matches Some(j) ==> j < p@.len() && p@[j as int].seq == start + i),
                    d ==> forall|h: int, kk: int| 0 <= h < g && 0 <= kk < groups@[h].1@.len() ==> placed(
                        table@,
                        data_at@,
                        bin@,
                        dv,
                        p@,
                        start,
                        #[trigger] groups@[h].1@[kk] as int,
                    ),
                    d ==> forall|kk: int| 0 <= kk < k ==> placed(table@, data_at@, bin@, dv, p@, start, #[trigger] idxs@[kk] as int),
                decreases n - k,
            {
                let j = idxs[k];
                let m = &p[j];
                let len = m.data.len();
                if inner > u32::MAX as u64 || len > u32::MAX as usize {
                    proof {
                        if fits {
                            crate::cluster::lemma_cluster_round_trip(vs, k as int);
                            assert(vs[k as int] == payloads@[k as int]@);
                        }
                    }
                    return Err(ArchiveError::TooLarge);
                }
                let rel = (m.seq - start) as usize;
                let rec = IndexRecord {
                    bin_off,
                    c_len,
                    inner_off: inner as u32,
                    len: len as u32,
                    path_hash: fx_hash_str(m.path.as_str()),
                };
                let ghost old_table = table@;
                let ghost old_data_at = data_at@;
                table.set(rel, rec);
                data_at.set(rel, Some(j));
                proof {
                    assert(holds_seq(p@, (start + rel) as u64)) by {
                        assert(p@[j as int].seq == (start + rel) as u64);
                    }
                    assert(vs[k as int] == p@[j as int].data@) by {
                        assert(vs[k as int] == payloads@[k as int]@);
                    }
                    assert(placed(table@, data_at@, bin@, dv, p@, start, j as int)) by {
                        assert(crate::cluster::fits_cluster(vs) && 0 <= k < vs.len() && vs[k as int] == p@[j as int].data@
                            && rec.inner_off == crate::cluster::inner_offset(vs, k as int));
                    }
                    if d {
                        assert forall|jj: int| 0 <= jj < p@.len() && jj != j && placed(old_table, old_data_at, bin@, dv, p@, start, jj) implies placed(
                            table@,
                            data_at@,
                            bin@,
                            dv,
                            p@,
                            start,
                            jj,
                        ) by {
                            assert(p@[jj].seq != p@[j as int].seq);
                            assert(table@[p@[jj].seq - start] == old_table[p@[jj].seq - start]);
                            assert(data_at@[p@[jj].seq - start] == old_data_at[p@[jj].seq - start]);
                        }
                        assert forall|h: int, kk: int| 0 <= h < g && 0 <= kk < groups@[h].1@.len() implies placed(
                            table@,
                            data_at@,
                            bin@,
                            dv,
                            p@,
                            start,
                            #[trigger] groups@[h].1@[kk] as int,
                        ) by {
                            let jj = groups@[h].1@[kk] as int;
                            if jj != j {
                                assert(placed(old_table, old_data_at, bin@, dv, p@, start, jj));
                            }
                        }
                        assert forall|kk: int| 0 <= kk < k + 1 implies placed(table@, data_at@, bin@, dv, p@, start, #[trigger] idxs@[kk] as int) by {
                            let jj = idxs@[kk] as int;
                            if jj != j {
                                assert(placed(old_table, old_data_at, bin@, dv, p@, start, jj));
                            }
                        }
                    }
                    assert(vs.take(k + 1).drop_last() =~= vs.take(k as int));
                }
                inner = inner + len as u64;
                k = k + 1;
            }
            proof {
                if d {
                    assert forall|h: int, kk: int| 0 <= h < g + 1 && 0 <= kk < groups@[h].1@.len() implies placed(
                        table@,
                        data_at@,
                        bin@,
                        dv,
                        p@,
                        start,
                        #[trigger] groups@[h].1@[kk] as int,
                    ) by {
                        if h == g {
                            assert(groups@[h].1@[kk] == idxs@[kk]);
                        }
                    }
                }
            }
            g = g + 1;
        }
        proof {
            if d {
                assert forall|j: int| 0 <= j < p@.len() implies placed(table@, data_at@, bin@, dv, p@, start, j) by {
                    assert(in_groups(groups@, j));
                    let (h, k) = choose|h: int, k: int| 0 <= h < groups@.len() && 0 <= k < groups@[h].1@.len() && groups@[h].1@[k] == j;
                    assert(groups@[h].1@[k] as int == j);
                }
            }
        }
        let ghost gv = group_view(groups@);
        proof {
            assert forall|g2: int, k: int| 0 <= g2 < gv.len() && 0 <= k < gv[g2].1.len() implies (#[trigger] gv[g2].1[k]) < p@.len()
                && p@[gv[g2].1[k] as int].author@ == gv[g2].0 by {
                assert(gv[g2].1[k] == groups@[g2].1@[k]);
            }
            assert forall|j: int| 0 <= j < p@.len() implies #[trigger] in_gview(gv, j) by {
                assert(in_groups(groups@, j));
                let (h, k) = choose|h: int, k: int| 0 <= h < groups@.len() && 0 <= k < groups@[h].1@.len() && groups@[h].1@[k] == j;
                assert(gv[h].1[k] == groups@[h].1@[k]);
            }
            assert forall|b: int| 0 < b < gv.len() implies bytes_lt(gv[b - 1].0, #[trigger] gv[b].0) by {
                assert(gv[b].0 == groups@[b].0@);
                assert(gv[b - 1].0 == groups@[b - 1].0@);
            }
            assert(groups_by_author(p@, gv));
            assert(bin@ == frames_concat(p@, gv, dv, gv.len() as int));
        }
        let mut tree = MerkleTree::new();
        let mut t: usize = 0;
        assert(crate::merkle::leaf_digests(leaves_from(data_at@, p@, 0)) =~= Seq::<Seq<u8>>::empty());
        while t < span
            invariant
                t <= span,
                data_at@.len() == span,
                forall|i: int| 0 <= i < span ==> (#[trigger] data_at@[i] matches Some(j) ==> j < p@.len()),
                tree@ == crate::merkle::leaf_digests(leaves_from(data_at@, p@, t as int)),
            decreases span - t,
        {
            if let Some(j) = data_at[t] {
                tree.push(p[j].data.as_slice());
                assert(crate::merkle::leaf_digests(leaves_from(data_at@, p@, t + 1)) =~= crate::merkle::leaf_digests(leaves_from(data_at@, p@, t as int)).push(crate::codec::blake3_of(p@[j as int].data@)));
            }
            t = t + 1;
        }
        let root = tree.root();
        proof {
            if d {
                assert forall|j: int| 0 <= j < p@.len() implies 0 <= (#[trigger] p@[j]).seq - start < data_at@.len() && data_at@[p@[j].seq - start] == Some(j as usize) by {
                    assert(placed(table@, data_at@, bin@, dv, p@, start, j));
                }
                lemma_leaves_in_order(data_at@, p@, start, span as int);
            }
        }
        let mut idx: Vec<u8> = Vec::new();
        append_bytes(&mut idx, root.as_slice());
        assert(idx@.subrange(0, 32) =~= root@);
        let mut t: usize = 0;
        while t < span
            invariant
                t <= span,
                table@.len() == span,
                idx@.len() == 32 + 28 * t,
                idx@.subrange(0, 32) == root@,
                forall|i: int| 0 <= i < t ==> idx@.subrange(32 + 28 * i, 32 + 28 * i + 28) == record_bytes(#[trigger] table@[i]),
            decreases span - t,
        {
            let ghost before = idx@;
            encode_record(&mut idx, &table[t]);
            proof {
                assert(idx@.subrange(0, 32) =~= before.subrange(0, 32));
                lemma_record_round_trip(table@[t as int]);
                assert forall|i: int| 0 <= i < t + 1 implies idx@.subrange(32 + 28 * i, 32 + 28 * i + 28) == record_bytes(#[trigger] table@[i]) by {
                    if i < t {
                        assert(idx@.subrange(32 + 28 * i, 32 + 28 * i + 28) =~= before.subrange(32 + 28 * i, 32 + 28 * i + 28));
                    } else {
                        assert(idx@.subrange(32 + 28 * i, 32 + 28 * i + 28) =~= record_bytes(table@[t as int]));
                    }
                }
            }
            t = t + 1;
        }
        proof {
            assert forall|rel: int| 0 <= rel < span implies #[trigger] spec_record(idx@, rel) == Some(table@[rel]) by {
                lemma_record_round_trip(table@[rel]);
            }
            assert forall|rel: int| 0 <= rel <= max - start && !holds_seq(p@, (start + rel) as u64) implies #[trigger] spec_record(idx@, rel) == Some(gap_record()) by {
                assert(spec_record(idx@, rel) == Some(table@[rel]));
            }
            if d {
                assert forall|j: int| 0 <= j < p@.len() implies #[trigger] kept(idx@, bin@, dv, p@, start, j) by {
                    assert(placed(table@, data_at@, bin@, dv, p@, start, j));
                    assert(spec_record(idx@, p@[j].seq - start) == Some(table@[p@[j].seq - start]));
                }
            }
        }
        Ok(Some(SegmentFiles { shard_id: payload.shard_id, start_seq: start, bin, idx }))
    }

    fn take_out(&mut self) -> (r: SegmentPayload)
        requires
            old(self).current_count == old(self).pending@.len(),
            old(self).pending@.len() > 0 ==> old(self).current_start_seq <= old(self).current_max_seq,
            in_range(old(self).pending@, old(self).current_start_seq, old(self).current_max_seq),
        ensures
            final(self).wf(),
            final(self)@.len() == 0,
            final(self).threshold() == old(self).threshold(),
            final(self).shard() == old(self).shard(),
            final(self).dictionary() == old(self).dictionary(),
            r.pending@ == old(self)@,
            r.count == r.pending@.len(),
            r.pending@.len() > 0 ==> r.start_seq <= r.max_seq,
            in_range(r.pending@, r.start_seq, r.max_seq),
            r.shard_id == old(self).shard(),
            r.start_seq == old(self).first_seq(),
            r.max_seq == old(self).last_seq(),
    {
        let mut pending: Vec<PendingMessage> = Vec::new();
        core::mem::swap(&mut pending, &mut self.pending);
        let payload = SegmentPayload {
            start_seq: self.current_start_seq,
            max_seq: self.current_max_seq,
            count: self.current_count,
            pending,
            shard_id: self.shard_id,
        };
        self.current_count = 0;
        self.current_max_seq = 0;
        payload
    }
}

/// The all-zero record that marks a gap.
pub open spec fn gap_record() -> IndexRecord {
    IndexRecord { bin_off: 0, c_len: 0, inner_off: 0, len: 0, path_hash: 0 }
}

/// Most messages one segment takes.
pub const MAX_SEGMENT_MESSAGES: usize = 65535;

/// Largest message, in bytes, that a segment is sure to take.
pub const MAX_MESSAGE_BYTES: usize = 60000;

/// Most sequences one segment's index spans.
pub const MAX_SPAN: u64 = 100_000_000;

/// Whether a payload is within the layout's limits, so laying it out succeeds: at most
/// 65535 messages of at most 60000 bytes each (every cluster's count, lengths and
/// offsets then fit their fields), sequences within `[start, max]` spanning fewer than
/// 100 million, and a dictionary, if any, that zstd loads as raw content.
pub open spec fn layout_fits(p: Seq<PendingMessage>, start: u64, max: u64, dict: Option<Seq<u8>>) -> bool {
    &&& 0 < p.len() <= 65535
    &&& start <= max && max - start < 100_000_000
    &&& in_range(p, start, max)
    &&& forall|j: int| 0 <= j < p.len() ==> (#[trigger] p[j]).data@.len() <= 60000
    &&& crate::codec::raw_dictionary(dict)
}

/// Whether no two buffered messages share a sequence.
pub open spec fn distinct_seqs(p: Seq<PendingMessage>) -> bool {
    forall|a: int, b: int| 0 <= a < p.len() && 0 <= b < p.len() && a != b ==> (#[trigger] p[a]).seq != (#[trigger] p[b]).seq
}

/// Whether message `j` is kept by its record in `table`, with its path hash.
pub open spec fn placed(
    table: Seq<IndexRecord>,
    data_at: Seq<Option<usize>>,
    bin: Seq<u8>,
    dict: Option<Seq<u8>>,
    p: Seq<PendingMessage>,
    start: u64,
    j: int,
) -> bool {
    let rec = table[p[j].seq - start];
    &&& stored(rec, bin, dict, p[j].data@)
    &&& rec.path_hash == fx_str(p[j].path@)
    &&& data_at[p[j].seq - start] == Some(j as usize)
}

/// The payloads that `data_at` points at, over its first `k` sequences.
pub open spec fn leaves_from(data_at: Seq<Option<usize>>, p: Seq<PendingMessage>, k: int) -> Seq<Seq<u8>>
    decreases k,
{
    if k <= 0 {
        Seq::empty()
    } else {
        let prev = leaves_from(data_at, p, k - 1);
        match data_at[k - 1] {
            Some(j) => prev.push(p[j as int].data@),
            None => prev,
        }
    }
}

/// The payloads of the messages in sequence order, over `k` sequences from `start`.
pub open spec fn seq_ordered(p: Seq<PendingMessage>, start: u64, k: int) -> Seq<Seq<u8>>
    decreases k,
{
    if k <= 0 {
        Seq::empty()
    } else {
        let prev = seq_ordered(p, start, k - 1);
        let s = (start + k - 1) as u64;
        if holds_seq(p, s) {
            prev.push(p[choose|j: int| 0 <= j < p.len() && (#[trigger] p[j]).seq == s].data@)
        } else {
            prev
        }
    }
}

proof fn lemma_leaves_in_order(data_at: Seq<Option<usize>>, p: Seq<PendingMessage>, start: u64, k: int)
    requires
        0 <= k <= data_at.len(),
        start + data_at.len() <= u64::MAX + 1,
        distinct_seqs(p),
        forall|i: int| 0 <= i < data_at.len() ==> (#[trigger] data_at[i] matches Some(j) ==> j < p.len() && p[j as int].seq == start + i),
        forall|j: int| 0 <= j < p.len() ==> 0 <= (#[trigger] p[j]).seq - start < data_at.len() && data_at[p[j].seq - start] == Some(j as usize),
    ensures
        leaves_from(data_at, p, k) == seq_ordered(p, start, k),
    decreases k,
{
    if k > 0 {
        lemma_leaves_in_order(data_at, p, start, k - 1);
        let s = (start + k - 1) as u64;
        match data_at[k - 1] {
            Some(j) => {
                assert(p[j as int].seq == s);
                assert(holds_seq(p, s));
                let c = choose|jj: int| 0 <= jj < p.len() && (#[trigger] p[jj]).seq == s;
                assert(c == j as int);
            },
            None => {
                if holds_seq(p, s) {
                    let c = choose|jj: int| 0 <= jj < p.len() && (#[trigger] p[jj]).seq == s;
                    assert(data_at[p[c].seq - start] == Some(c as usize));
                }
            },
        }
    }
}

/// Whether the segment files `(idx, bin)` keep message `j` of `p`: its record, at its
/// sequence, keeps its payload and the hash of its path.
pub open spec fn kept(idx: Seq<u8>, bin: Seq<u8>, dict: Option<Seq<u8>>, p: Seq<PendingMessage>, start: u64, j: int) -> bool {
    &&& spec_record(idx, p[j].seq - start) is Some
    &&& stored(spec_record(idx, p[j].seq - start).unwrap(), bin, dict, p[j].data@)
    &&& spec_record(idx, p[j].seq - start).unwrap().path_hash == fx_str(p[j].path@)
}

/// Law of the round trip: a non-empty message of a payload with distinct sequences,
/// once laid out by `persist_payload`, has a record at its sequence whose cluster
/// decompresses, and slicing that cluster at the record's inner offset and length gives
/// back exactly the message; so reading the record returns the message.
pub proof fn lemma_round_trip(
    idx: Seq<u8>,
    bin: Seq<u8>,
    dict: Option<Seq<u8>>,
    p: Seq<PendingMessage>,
    start: u64,
    j: int,
    v: Seq<u8>,
)
    requires
        kept(idx, bin, dict, p, start, j),
        p[j].data@.len() > 0,
        crate::codec::raw_dictionary(dict),
    ensures
        ({
            let rec = spec_record(idx, p[j].seq - start).unwrap();
            &&& rec.len != 0
            &&& cluster_holds(bin, rec, dict)
            &&& read_ok(bin, rec, dict, v) ==> v == p[j].data@
        }),
{
    let rec = spec_record(idx, p[j].seq - start).unwrap();
    lemma_read_back(rec, bin, dict, p[j].data@, v);
}

/// What reading the records of segment files gives, when they keep every message of
/// `p` (distinct sequences, none empty) and mark every other sequence a gap: the
/// payloads in sequence order.
pub proof fn lemma_reads_in_order(
    idx: Seq<u8>,
    bin: Seq<u8>,
    dict: Option<Seq<u8>>,
    p: Seq<PendingMessage>,
    start: u64,
    span: int,
    outs: Seq<Option<Seq<u8>>>,
    k: int,
)
    requires
        distinct_seqs(p),
        crate::codec::raw_dictionary(dict),
        0 <= k <= span,
        start + span <= u64::MAX + 1,
        record_count(idx) == span,
        forall|j: int| 0 <= j < p.len() ==> (#[trigger] p[j]).data@.len() > 0,
        forall|j: int| 0 <= j < p.len() ==> start <= (#[trigger] p[j]).seq < start + span,
        forall|rel: int| 0 <= rel < span && !holds_seq(p, (start + rel) as u64) ==> #[trigger] spec_record(idx, rel)
            == Some(gap_record()),
        forall|j: int| 0 <= j < p.len() ==> #[trigger] kept(idx, bin, dict, p, start, j),
        reads_ok(bin, idx, dict, outs),
    ensures
        somes(outs.take(k)) == seq_ordered(p, start, k),
    decreases k,
{
    if k > 0 {
        lemma_reads_in_order(idx, bin, dict, p, start, span, outs, k - 1);
        assert(outs.take(k).drop_last() =~= outs.take(k - 1));
        let s = (start + k - 1) as u64;
        let rel = k - 1;
        if holds_seq(p, s) {
            let j = choose|j: int| 0 <= j < p.len() && (#[trigger] p[j]).seq == s;
            assert(kept(idx, bin, dict, p, start, j));
            let rec = spec_record(idx, rel).unwrap();
            assert(p[j].seq - start == rel);
            lemma_read_back(rec, bin, dict, p[j].data@, outs[rel].unwrap());
        } else {
            assert(spec_record(idx, rel) == Some(gap_record()));
        }
    }
}

/// Law of Merkle integrity: for segment files that `persist_payload` laid out from a
/// payload with distinct sequences and no empty message, the root that reading every
/// record recomputes is the root stored at the head of the index, so the integrity
/// check of the untampered segment passes.
pub proof fn lemma_integrity_untampered(
    idx: Seq<u8>,
    bin: Seq<u8>,
    dict: Option<Seq<u8>>,
    p: Seq<PendingMessage>,
    start: u64,
    max: u64,
    outs: Seq<Option<Seq<u8>>>,
)
    requires
        distinct_seqs(p),
        crate::codec::raw_dictionary(dict),
        start <= max,
        in_range(p, start, max),
        forall|j: int| 0 <= j < p.len() ==> (#[trigger] p[j]).data@.len() > 0,
        record_count(idx) == max - start + 1,
        forall|rel: int| 0 <= rel <= max - start && !holds_seq(p, (start + rel) as u64) ==> #[trigger] spec_record(idx, rel)
            == Some(gap_record()),
        forall|j: int| 0 <= j < p.len() ==> #[trigger] kept(idx, bin, dict, p, start, j),
        idx.subrange(0, 32) == crate::merkle::merkle_root(crate::merkle::leaf_digests(seq_ordered(p, start, max - start + 1))),
        reads_ok(bin, idx, dict, outs),
    ensures
        crate::merkle::merkle_root(crate::merkle::leaf_digests(somes(outs))) == idx.subrange(0, 32),
{
    let span = max - start + 1;
    assert forall|j: int| 0 <= j < p.len() implies start <= (#[trigger] p[j]).seq < start + span by {
        assert(start <= p[j].seq <= max);
    }
    lemma_reads_in_order(idx, bin, dict, p, start, span, outs, span);
    assert(outs.take(span) =~= outs);
}

/// Author groups as (author bytes, message indices).
pub open spec fn group_view(gs: Seq<(Vec<u8>, Vec<usize>)>) -> Seq<(Seq<u8>, Seq<usize>)> {
    gs.map_values(|g: (Vec<u8>, Vec<usize>)| (g.0@, g.1@))
}

/// The payloads of the messages `idxs` of `p`, in that order.
pub open spec fn group_payloads(p: Seq<PendingMessage>, idxs: Seq<usize>) -> Seq<Seq<u8>> {
    idxs.map_values(|i: usize| p[i as int].data@)
}

/// The compressed clusters of the first `g` groups, end to end.
pub open spec fn frames_concat(p: Seq<PendingMessage>, gs: Seq<(Seq<u8>, Seq<usize>)>, dict: Option<Seq<u8>>, g: int) -> Seq<u8>
    decreases g,
{
    if g <= 0 {
        Seq::empty()
    } else {
        frames_concat(p, gs, dict, g - 1) + crate::codec::zstd_frame(
            crate::cluster::cluster_bytes(group_payloads(p, gs[g - 1].1)),
            dict,
        )
    }
}

/// Whether `gs` groups the messages of `p` by author: each message stands in a group,
/// every message of a group has the group's author, and authors are in strictly
/// increasing byte order (so one group per author).
pub open spec fn groups_by_author(p: Seq<PendingMessage>, gs: Seq<(Seq<u8>, Seq<usize>)>) -> bool {
    &&& forall|g: int, k: int| 0 <= g < gs.len() && 0 <= k < gs[g].1.len() ==> (#[trigger] gs[g].1[k]) < p.len()
        && p[gs[g].1[k] as int].author@ == gs[g].0
    &&& forall|j: int| 0 <= j < p.len() ==> #[trigger] in_gview(gs, j)
    &&& forall|b: int| 0 < b < gs.len() ==> bytes_lt(gs[b - 1].0, #[trigger] gs[b].0)
}

/// Whether message index `j` stands in one of the groups `gs`.
pub open spec fn in_gview(gs: Seq<(Seq<u8>, Seq<usize>)>, j: int) -> bool {
    exists|g: int, k: int| 0 <= g < gs.len() && 0 <= k < gs[g].1.len() && #[trigger] gs[g].1[k] == j
}

/// Byte order is total.
pub proof fn lemma_bytes_lt_total(a: Seq<u8>, b: Seq<u8>)
    ensures
        bytes_lt(a, b) || bytes_lt(b, a) || a == b,
    decreases a.len(),
{
    if a.len() > 0 && b.len() > 0 && a[0] == b[0] {
        let ta = a.subrange(1, a.len() as int);
        let tb = b.subrange(1, b.len() as int);
        lemma_bytes_lt_total(ta, tb);
        if ta == tb {
            assert(a.len() == b.len());
            assert forall|i: int| 0 <= i < a.len() implies a[i] == b[i] by {
                if i > 0 {
                    assert(a[i] == ta[i - 1]);
                    assert(b[i] == tb[i - 1]);
                }
            }
            assert(a =~= b);
        }
    } else if a.len() == 0 && b.len() == 0 {
        assert(a =~= b);
    }
}

/// Whether message index `q` stands in some group.
pub open spec fn in_groups(gs: Seq<(Vec<u8>, Vec<usize>)>, q: int) -> bool {
    exists|g: int, k: int| 0 <= g < gs.len() && 0 <= k < gs[g].1@.len() && (#[trigger] gs[g].1@[k]) == q
}

/// Groups message indices by author, authors in byte order, indices in arrival order.
fn group_by_author(p: &Vec<PendingMessage>) -> (r: Vec<(Vec<u8>, Vec<usize>)>)
    ensures
        forall|g: int, k: int| 0 <= g < r@.len() && 0 <= k < r@[g].1@.len() ==> (#[trigger] r@[g].1@[k]) < p@.len(),
        forall|q: int| 0 <= q < p@.len() ==> #[trigger] in_groups(r@, q),
        r@.len() <= p@.len(),
        forall|g: int| 0 <= g < r@.len() ==> (#[trigger] r@[g]).1@.len() <= p@.len(),
        forall|g: int, k: int| 0 <= g < r@.len() && 0 <= k < r@[g].1@.len() ==> p@[(#[trigger] r@[g].1@[k]) as int].author@ == r@[g].0@,
        forall|b: int| 0 < b < r@.len() ==> bytes_lt(r@[b - 1].0@, #[trigger] r@[b].0@),
{
    let mut groups: Vec<(Vec<u8>, Vec<usize>)> = Vec::new();
    let mut j: usize = 0;
    while j < p.len()
        invariant
            j <= p@.len(),
            forall|g: int, k: int| 0 <= g < groups@.len() && 0 <= k < groups@[g].1@.len() ==> (#[trigger] groups@[g].1@[k]) < p@.len(),
            forall|q: int| 0 <= q < j ==> #[trigger] in_groups(groups@, q),
            groups@.len() <= j,
            forall|g: int| 0 <= g < groups@.len() ==> (#[trigger] groups@[g]).1@.len() <= j,
            forall|g: int, k: int| 0 <= g < groups@.len() && 0 <= k < groups@[g].1@.len() ==> p@[(#[trigger] groups@[g].1@[k]) as int].author@ == groups@[g].0@,
            forall|b: int| 0 < b < groups@.len() ==> bytes_lt(groups@[b - 1].0@, #[trigger] groups@[b].0@),
        decreases p@.len() - j,
    {
        let author = p[j].author.as_slice();
        let mut g: usize = 0;
        let mut found = false;
        while g < groups.len() && !found
            invariant
                g <= groups@.len(),
                found ==> g < groups@.len() && groups@[g as int].0@ == author@,
                !found ==> forall|q: int| 0 <= q < g ==> (#[trigger] groups@[q]).0@ != author@,
            decreases groups@.len() - g, if found { 0int } else { 1int },
        {
            if bytes_eq(groups[g].0.as_slice(), author) {
                found = true;
            } else {
                g = g + 1;
            }
        }
        if found {
            let ghost before = groups@;
            let (a, mut idxs) = groups.remove(g);
            assert(idxs@ == before[g as int].1@);
            idxs.push(j);
            groups.insert(g, (a, idxs));
            proof {
                assert forall|h: int, k: int| 0 <= h < groups@.len() && 0 <= k < groups@[h].1@.len() implies (#[trigger] groups@[h].1@[k]) < p@.len() by {
                    if h != g {
                        assert(groups@[h] == before[h]);
                    } else if k < before[h].1@.len() {
                        assert(groups@[h].1@[k] == before[h].1@[k]);
                    }
                }
                assert forall|h: int| 0 <= h < groups@.len() implies (#[trigger] groups@[h]).1@.len() <= j + 1 by {
                    if h != g {
                        assert(groups@[h] == before[h]);
                    }
                }
                assert forall|h: int| 0 <= h < groups@.len() implies (#[trigger] groups@[h]).0@ == before[h].0@ by {
                    if h != g {
                        assert(groups@[h] == before[h]);
                    }
                }
                assert forall|h: int, k: int| 0 <= h < groups@.len() && 0 <= k < groups@[h].1@.len() implies p@[(#[trigger] groups@[h].1@[k]) as int].author@ == groups@[h].0@ by {
                    if h != g {
                        assert(groups@[h] == before[h]);
                    } else if k < before[h].1@.len() {
                        assert(groups@[h].1@[k] == before[h].1@[k]);
                    }
                }
                assert forall|b: int| 0 < b < groups@.len() implies bytes_lt(groups@[b - 1].0@, #[trigger] groups@[b].0@) by {
                    assert(groups@[b - 1].0@ == before[b - 1].0@);
                    assert(groups@[b].0@ == before[b].0@);
                }
                assert forall|q: int| 0 <= q < j + 1 implies #[trigger] in_groups(groups@, q) by {
                    if q == j {
                        let last = groups@[g as int].1@.len() - 1;
                        assert(groups@[g as int].1@[last] == j);
                    } else {
                        assert(in_groups(before, q));
                        let (h, k) = choose|h: int, k: int| 0 <= h < before.len() && 0 <= k < before[h].1@.len() && before[h].1@[k] == q;
                        if h != g {
                            assert(groups@[h] == before[h]);
                        }
                        assert(groups@[h].1@[k] == q);
                    }
                }
            }
        } else {
            let mut pos: usize = 0;
            while pos < groups.len() && !less_bytes(author, groups[pos].0.as_slice())
                invariant
                    pos <= groups@.len(),
                    j < p@.len(),
                    forall|g: int, k: int| 0 <= g < groups@.len() && 0 <= k < groups@[g].1@.len() ==> (#[trigger] groups@[g].1@[k]) < p@.len(),
                    forall|q: int| 0 <= q < j ==> #[trigger] in_groups(groups@, q),
                    groups@.len() <= j,
                    forall|g: int| 0 <= g < groups@.len() ==> (#[trigger] groups@[g]).1@.len() <= j,
                    forall|g: int, k: int| 0 <= g < groups@.len() && 0 <= k < groups@[g].1@.len() ==> p@[(#[trigger] groups@[g].1@[k]) as int].author@ == groups@[g].0@,
                    forall|b: int| 0 < b < groups@.len() ==> bytes_lt(groups@[b - 1].0@, #[trigger] groups@[b].0@),
                    forall|q: int| 0 <= q < groups@.len() ==> (#[trigger] groups@[q]).0@ != author@,
                    author@ == p@[j as int].author@,
                    pos > 0 ==> !bytes_lt(author@, groups@[pos - 1].0@),
                decreases groups@.len() - pos,
            {
                pos = pos + 1;
            }
            let mut idxs: Vec<usize> = Vec::new();
            idxs.push(j);
            let ghost before = groups@;
            assert(pos < before.len() ==> bytes_lt(author@, before[pos as int].0@));
            assert(pos > 0 ==> !bytes_lt(author@, before[pos - 1].0@) && before[pos - 1].0@ != author@);
            assert(forall|b: int| 0 < b < before.len() ==> bytes_lt(before[b - 1].0@, #[trigger] before[b].0@));
            groups.insert(pos, (copy_bytes(author), idxs));
            proof {
                assert forall|h: int, k: int| 0 <= h < groups@.len() && 0 <= k < groups@[h].1@.len() implies (#[trigger] groups@[h].1@[k]) < p@.len() by {
                    if h < pos {
                        assert(groups@[h] == before[h]);
                    } else if h > pos {
                        assert(groups@[h] == before[h - 1]);
                    } else {
                        assert(groups@[h].1@ == seq![j]);
                    }
                }
                assert forall|g: int| 0 <= g < groups@.len() implies (#[trigger] groups@[g]).1@.len() <= j + 1 by {
                    if g < pos {
                        assert(groups@[g] == before[g]);
                    } else if g > pos {
                        assert(groups@[g] == before[g - 1]);
                    }
                }
                assert forall|q: int| 0 <= q < j + 1 implies #[trigger] in_groups(groups@, q) by {
                    if q == j {
                        assert(groups@[pos as int].1@[0] == j);
                    } else {
                        assert(in_groups(before, q));
                        let (h, k) = choose|h: int, k: int| 0 <= h < before.len() && 0 <= k < before[h].1@.len() && before[h].1@[k] == q;
                        if h < pos {
                            assert(groups@[h] == before[h]);
                            assert(groups@[h].1@[k] == q);
                        } else {
                            assert(groups@[h + 1] == before[h]);
                            assert(groups@[h + 1].1@[k] == q);
                        }
                    }
                }
                assert forall|h: int, k: int| 0 <= h < groups@.len() && 0 <= k < groups@[h].1@.len() implies p@[(#[trigger] groups@[h].1@[k]) as int].author@ == groups@[h].0@ by {
                    if h < pos {
                        assert(groups@[h] == before[h]);
                    } else if h > pos {
                        assert(groups@[h] == before[h - 1]);
                    } else {
                        assert(groups@[h].1@ == seq![j]);
                    }
                }
                assert forall|b: int| 0 < b < groups@.len() implies bytes_lt(groups@[b - 1].0@, #[trigger] groups@[b].0@) by {
                    if b < pos {
                        assert(groups@[b] == before[b] && groups@[b - 1] == before[b - 1]);
                    } else if b == pos {
                        assert(groups@[b].0@ == author@);
                        assert(groups@[b - 1] == before[b - 1]);
                        lemma_bytes_lt_total(author@, before[b - 1].0@);
                    } else if b == pos + 1 {
                        assert(groups@[b - 1].0@ == author@);
                        assert(groups@[b] == before[b - 1]);
                    } else {
                        assert(groups@[b] == before[b - 1] && groups@[b - 1] == before[b - 2]);
                    }
                }
            }
        }
        j = j + 1;
    }
    groups
}

/// The smallest sequence buffered after adding `seq` to `n` messages whose smallest is `first`.
pub open spec fn next_first(n: nat, first: u64, seq: u64) -> u64 {
    if n == 0 || seq < first { seq } else { first }
}

/// The largest sequence buffered after adding `seq` to `n` messages whose largest is `last`.
pub open spec fn next_last(n: nat, last: u64, seq: u64) -> u64 {
    if n == 0 || seq > last { seq } else { last }
}

/// Whether `m` is the message `(did, seq, path, data)`.
pub open spec fn msg_is(m: PendingMessage, did: &str, seq: u64, path: &str, data: &[u8]) -> bool {
    m.author@ == did.spec_bytes() && m.seq == seq && m.path@ == path@ && m.data@ == data@
}

/// The first sequence named by a segment file stem: the decimal digits after the first
/// `_` (as in `s3_1200`), or the whole stem when it has no `_`.
pub open spec fn stem_start(stem: Seq<u8>) -> Option<nat> {
    let u = first_index(stem, 0x5f, 0);
    if u < stem.len() {
        digits_value(stem.subrange(u + 1, stem.len() as int))
    } else {
        digits_value(stem)
    }
}

/// The value of a non-empty string of decimal digits; `None` for any other string.
pub open spec fn digits_value(digits: Seq<u8>) -> Option<nat> {
    if digits.len() == 0 || exists|i: int| 0 <= i < digits.len() && !(0x30 <= #[trigger] digits[i] <= 0x39) {
        None
    } else {
        Some(decimal_value(digits))
    }
}

/// Index of the first byte `c` of `s` at or after `k`, or the length of `s`.
pub open spec fn first_index(s: Seq<u8>, c: u8, k: int) -> int
    decreases s.len() - k,
{
    if k < 0 || k >= s.len() {
        s.len() as int
    } else if s[k] == c {
        k
    } else {
        first_index(s, c, k + 1)
    }
}

/// The value of a string of decimal digits.
pub open spec fn decimal_value(d: Seq<u8>) -> nat
    decreases d.len(),
{
    if d.len() == 0 {
        0
    } else {
        decimal_value(d.drop_last()) * 10 + (d.last() - 0x30) as nat
    }
}

/// Reads the first sequence out of a segment file stem; `None` if it is not a decimal
/// number that fits in 64 bits.
pub fn segment_start_of(stem: &str) -> (r: Option<u64>)
    ensures
        r matches Some(n) ==> stem_start(stem.spec_bytes()) == Some(n as nat),
        stem_start(stem.spec_bytes()) is Some && stem_start(stem.spec_bytes()).unwrap() <= u64::MAX ==> r == Some(
            stem_start(stem.spec_bytes()).unwrap() as u64,
        ),
        stem_start(stem.spec_bytes()) is None ==> r is None,
{
    let b = stem.as_bytes();
    let mut k: usize = 0;
    while k < b.len() && b[k] != 0x5f
        invariant
            k <= b@.len(),
            first_index(b@, 0x5f, 0) == first_index(b@, 0x5f, k as int),
        decreases b@.len() - k,
    {
        k = k + 1;
    }
    assert(first_index(b@, 0x5f, k as int) == k);
    let start = if k < b.len() { k + 1 } else { 0 };
    assert(b@.subrange(0, b@.len() as int) =~= b@);
    let digits = vstd::slice::slice_subrange(b, start, b.len());
    assert(stem_start(stem.spec_bytes()) == digits_value(digits@));
    if digits.len() == 0 {
        return None;
    }
    let mut v: u64 = 0;
    let mut i: usize = 0;
    let mut fits = true;
    while i < digits.len()
        invariant
            i <= digits@.len(),
            forall|j: int| 0 <= j < i ==> 0x30 <= #[trigger] digits@[j] <= 0x39,
            stem_start(stem.spec_bytes()) == digits_value(digits@),
            digits@.len() > 0,
            fits ==> v as nat == decimal_value(digits@.subrange(0, i as int)),
            !fits ==> decimal_value(digits@.subrange(0, i as int)) > u64::MAX,
        decreases digits@.len() - i,
    {
        let c = digits[i];
        if c < 0x30 || c > 0x39 {
            assert(!(0x30 <= digits@[i as int] <= 0x39));
            return None;
        }
        let dv = (c - 0x30) as u64;
        proof {
            assert(digits@.subrange(0, i + 1).drop_last() =~= digits@.subrange(0, i as int));
        }
        if fits && v <= (u64::MAX - dv) / 10 {
            v = v * 10 + dv;
        } else {
            proof {
                let prev = decimal_value(digits@.subrange(0, i as int));
                if fits {
                    assert(prev * 10 + dv > u64::MAX) by (nonlinear_arith)
                        requires prev == v as nat, v > (u64::MAX - dv) / 10, dv <= 9;
                } else {
                    assert(prev * 10 + dv > u64::MAX) by (nonlinear_arith)
                        requires prev > u64::MAX;
                }
            }
            fits = false;
        }
        i = i + 1;
    }
    assert(digits@.subrange(0, digits@.len() as int) =~= digits@);
    assert(!exists|j: int| 0 <= j < digits@.len() && !(0x30 <= #[trigger] digits@[j] <= 0x39));
    if fits { Some(v) } else { None }
}

} // verus!
