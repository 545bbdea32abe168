//! The relay's per-subscriber decisions: where to start, and at each step whether to
//! send the cluster at the cursor, skip it, or wait for more data.
use vstd::prelude::*;
use crate::archive::{newest_holder, raw_ok_at, seg_has, served_cluster, MultiShardArchive};
use crate::codec::{blake3_hash, blake3_of};
use crate::segment::ArchiveError;
use crate::cluster::append_bytes;
use crate::frame::{text_or_empty, utf8_text};
use vstd::string::StringSliceAdditionalSpecFns;

verus! {

/// What the relay does next for one subscriber.
pub enum RelayAction {
    /// Send this compressed cluster.
    Send(Vec<u8>),
    /// Nothing to send for this sequence: it is deleted, or so is its whole cluster.
    Skip,
    /// The cluster at this sequence is the one sent last.
    Repeat,
    /// No data at the cursor yet: refresh the archive and try again later.
    Wait,
    /// The archive failed: close the connection.
    Stop,
}

/// One subscriber's position in the archive.
pub struct RelaySession {
    pub current_seq: u64,
    /// Digest of the last cluster sent.
    pub last_cluster_hash: Option<[u8; 32]>,
    /// Sequences skipped because they were deleted.
    pub filtered: u64,
}

impl RelaySession {
    /// The digest of the last cluster sent.
    pub open spec fn last_sent(&self) -> Option<Seq<u8>> {
        match self.last_cluster_hash {
            None => None,
            Some(h) => Some(h@),
        }
    }

    /// A session starting at the subscriber's cursor, or else at the archive's first
    /// sequence; `None` while the archive is empty and no cursor was given.
    pub fn start(cursor: Option<u64>, archive_min: Option<u64>) -> (r: Option<Self>)
        ensures
            match cursor {
                Some(c) => r matches Some(s) && s.current_seq == c,
                None => match archive_min {
                    Some(m) => r matches Some(s) && s.current_seq == m,
                    None => r is None,
                },
            },
            r matches Some(s) ==> s.filtered == 0 && s.last_sent() is None,
    {
        let first = match cursor {
            Some(c) => c,
            None => match archive_min {
                Some(m) => m,
                None => return None,
            },
        };
        Some(RelaySession { current_seq: first, last_cluster_hash: None, filtered: 0 })
    }

    /// Decides the next step at the cursor: a deleted sequence is skipped and counted;
    /// a cluster is sent unless it is the one sent last, and the cursor moves on; where
    /// the archive holds nothing yet the cursor stays and the relay waits.
    pub fn step(&mut self, archive: &MultiShardArchive) -> (r: RelayAction)
        requires
            archive.wf(),
        ensures
            archive.deleted().contains(old(self).current_seq) ==> (r matches RelayAction::Skip && final(self).filtered
                == crate::monitor::bump(old(self).filtered)),
            r matches RelayAction::Wait <==> !archive.deleted().contains(old(self).current_seq) && !holder_exists(
                archive,
                old(self).current_seq,
            ),
            r matches RelayAction::Send(c) ==> {
                &&& !archive.deleted().contains(old(self).current_seq)
                &&& holder_exists(archive, old(self).current_seq)
                &&& exists|i: int, k: int|
                    0 <= i < archive.shards() && newest_holder(archive.shard_segments(i), k, old(self).current_seq)
                        && served_cluster(
                        #[trigger] archive.shard_segments(i)[k],
                        old(self).current_seq - archive.shard_segments(i)[k].start_seq,
                        archive.dictionary(),
                        archive.deleted(),
                        c@,
                    )
                &&& old(self).last_sent() != Some(blake3_of(c@))
                &&& final(self).last_sent() == Some(blake3_of(c@))
            },
            r matches RelayAction::Repeat ==> old(self).last_sent() is Some && final(self).last_sent() == old(self).last_sent(),
            (exists|i: int, k: int|
                0 <= i < archive.shards() && #[trigger] raw_ok_at(archive.shard_segments(i), k, old(self).current_seq, archive.deleted()))
                && !archive.deleted().contains(old(self).current_seq) ==> (r matches RelayAction::Send(_)
                || r matches RelayAction::Repeat),
            !(r matches RelayAction::Send(_)) ==> final(self).last_sent() == old(self).last_sent(),
            (r matches RelayAction::Send(_) || r matches RelayAction::Skip || r matches RelayAction::Repeat)
                && old(self).current_seq < u64::MAX ==> final(self).current_seq == old(self).current_seq + 1,
            r matches RelayAction::Wait ==> final(self).current_seq == old(self).current_seq,
            !archive.deleted().contains(old(self).current_seq) ==> final(self).filtered == old(self).filtered,
    {
        let seq = self.current_seq;
        if archive.is_deleted(seq) {
            self.filtered = self.filtered.saturating_add(1);
            self.current_seq = seq.saturating_add(1);
            return RelayAction::Skip;
        }
        if !archive.holds(seq) {
            return RelayAction::Wait;
        }
        match archive.get_raw_cluster_at_seq(seq) {
            Ok(cluster) => {
                let h = blake3_hash(cluster.as_slice());
                let repeat = match &self.last_cluster_hash {
                    Some(last) => crate::car::bytes_eq(last.as_slice(), h.as_slice()),
                    None => false,
                };
                self.current_seq = seq.saturating_add(1);
                if repeat {
                    RelayAction::Repeat
                } else {
                    self.last_cluster_hash = Some(h);
                    RelayAction::Send(cluster)
                }
            },
            Err(ArchiveError::NotFound) => {
                self.current_seq = seq.saturating_add(1);
                RelayAction::Skip
            },
            Err(_) => RelayAction::Stop,
        }
    }
}

/// Whether some shard's segment holds a message at `seq`.
pub open spec fn holder_exists(archive: &MultiShardArchive, seq: u64) -> bool {
    exists|i: int, k: int| 0 <= i < archive.shards() && 0 <= k < archive.shard_segments(i).len() && seg_has(
        #[trigger] archive.shard_segments(i)[k],
        seq,
    )
}

/// The lowercase hex digit of `d` (below 16).
pub open spec fn hex_digit(d: u8) -> u8 {
    if d < 10 { (0x30 + d) as u8 } else { (0x61 + d - 10) as u8 }
}

/// The lowercase hex text of bytes, two digits each.
pub open spec fn hex_of(b: Seq<u8>) -> Seq<u8>
    decreases b.len(),
{
    if b.len() == 0 {
        Seq::empty()
    } else {
        hex_of(b.drop_last()) + seq![hex_digit(b.last() / 16), hex_digit(b.last() % 16)]
    }
}

fn push_hex(out: &mut Vec<u8>, b: &[u8])
    ensures
        final(out)@ == old(out)@ + hex_of(b@),
{
    let mut i: usize = 0;
    while i < b.len()
        invariant
            i <= b@.len(),
            out@ == old(out)@ + hex_of(b@.subrange(0, i as int)),
        decreases b@.len() - i,
    {
        let hi = b[i] / 16;
        let lo = b[i] % 16;
        out.push(if hi < 10 { 0x30 + hi } else { 0x61 + hi - 10 });
        out.push(if lo < 10 { 0x30 + lo } else { 0x61 + lo - 10 });
        proof {
            assert(b@.subrange(0, i + 1).drop_last() =~= b@.subrange(0, i as int));
            assert(out@ =~= old(out)@ + hex_of(b@.subrange(0, i + 1)));
        }
        i = i + 1;
    }
    assert(b@.subrange(0, b@.len() as int) =~= b@);
}

/// The text of the relay's first handshake frame: protocol version 1, zstd compression,
/// the BLAKE3 digest of the dictionary in hex, and `info` (placed as given).
pub open spec fn handshake_bytes(dict: Seq<u8>, info: Seq<u8>) -> Seq<u8> {
    seq![0x7bu8, 0x22, 0x76, 0x65, 0x72, 0x73, 0x69, 0x6f, 0x6e, 0x22, 0x3a, 0x31, 0x2c, 0x22, 0x63, 0x6f, 0x6d, 0x70, 0x72, 0x65, 0x73, 0x73, 0x69, 0x6f, 0x6e, 0x22, 0x3a, 0x22, 0x7a, 0x73, 0x74, 0x64, 0x22, 0x2c, 0x22, 0x64, 0x69, 0x63, 0x74, 0x5f, 0x68, 0x61, 0x73, 0x68, 0x22, 0x3a, 0x22] + hex_of(blake3_of(dict)) + seq![0x22u8, 0x2c, 0x22, 0x69, 0x6e, 0x66, 0x6f, 0x22, 0x3a, 0x22] + info + seq![0x22u8, 0x7d]
}

/// The JSON handshake sent to a new subscriber before the dictionary frame.
pub fn handshake_json(dict: &[u8], info: &str) -> (r: String)
    ensures
        r@ == utf8_text(handshake_bytes(dict@, info.spec_bytes())),
{
    let pre: [u8; 47] = [0x7b, 0x22, 0x76, 0x65, 0x72, 0x73, 0x69, 0x6f, 0x6e, 0x22, 0x3a, 0x31, 0x2c, 0x22, 0x63, 0x6f, 0x6d, 0x70, 0x72, 0x65, 0x73, 0x73, 0x69, 0x6f, 0x6e, 0x22, 0x3a, 0x22, 0x7a, 0x73, 0x74, 0x64, 0x22, 0x2c, 0x22, 0x64, 0x69, 0x63, 0x74, 0x5f, 0x68, 0x61, 0x73, 0x68, 0x22, 0x3a, 0x22];
    let mid: [u8; 10] = [0x22, 0x2c, 0x22, 0x69, 0x6e, 0x66, 0x6f, 0x22, 0x3a, 0x22];
    let post: [u8; 2] = [0x22, 0x7d];
    assert(pre@ =~= seq![0x7bu8, 0x22, 0x76, 0x65, 0x72, 0x73, 0x69, 0x6f, 0x6e, 0x22, 0x3a, 0x31, 0x2c, 0x22, 0x63, 0x6f, 0x6d, 0x70, 0x72, 0x65, 0x73, 0x73, 0x69, 0x6f, 0x6e, 0x22, 0x3a, 0x22, 0x7a, 0x73, 0x74, 0x64, 0x22, 0x2c, 0x22, 0x64, 0x69, 0x63, 0x74, 0x5f, 0x68, 0x61, 0x73, 0x68, 0x22, 0x3a, 0x22]);
    assert(mid@ =~= seq![0x22u8, 0x2c, 0x22, 0x69, 0x6e, 0x66, 0x6f, 0x22, 0x3a, 0x22]);
    assert(post@ =~= seq![0x22u8, 0x7d]);
    let h = blake3_hash(dict);
    let mut out: Vec<u8> = Vec::new();
    append_bytes(&mut out, pre.as_slice());
    push_hex(&mut out, h.as_slice());
    append_bytes(&mut out, mid.as_slice());
    append_bytes(&mut out, info.as_bytes());
    append_bytes(&mut out, post.as_slice());
    assert(out@ =~= handshake_bytes(dict@, info.spec_bytes()));
    text_or_empty(out.as_slice())
}

} // verus!
