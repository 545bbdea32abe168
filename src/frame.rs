//! Zero-copy decoding of a stream frame (or a bare block bag) into a commit envelope.
use vstd::prelude::*;
use crate::car::{bytes_eq, copy_bytes, extract_from_car, opt_view, spec_extract};
use crate::cbor::{
    major_of, parse_cbor_bytes, parse_cbor_len, parse_cbor_text, parse_cbor_uint, skip_cbor_value, spec_head,
    spec_head_of, spec_skip, spec_string,
};

verus! {

/// One record operation of a commit: its action, its path, and the identifier of the
/// record it writes, if any.
#[derive(Debug, Clone)]
pub struct RepoOp {
    pub action: String,
    pub path: String,
    pub cid: Option<Vec<u8>>,
}

/// The fields of a frame, borrowed from the frame's own bytes.
#[derive(Debug)]
pub struct CommitEnvelope<'a> {
    pub did: Option<&'a [u8]>,
    pub sequence: Option<u64>,
    pub signature: Option<&'a [u8]>,
    pub t: Option<&'a [u8]>,
    pub op: Option<u64>,
    pub raw: &'a [u8],
    pub blocks: Option<&'a [u8]>,
    pub commit: Option<&'a [u8]>,
    pub cid: Option<&'a [u8]>,
    pub record_cid: Option<&'a [u8]>,
    pub ops: Vec<RepoOp>,
    pub source_type: &'static str,
}

/// The text of a byte string: its UTF-8 decoding when it is valid UTF-8, else empty.
pub open spec fn utf8_text(b: Seq<u8>) -> Seq<char> {
    if vstd::utf8::valid_utf8(b) {
        vstd::utf8::decode_utf8(b)
    } else {
        Seq::empty()
    }
}

/// Relies on `std::str::from_utf8`: the text of valid UTF-8 bytes; an empty
/// string for any other bytes, and for no bytes.
#[verifier::external_body]
pub(crate) fn text_or_empty(b: &[u8]) -> (r: String)
    ensures
        r@ == utf8_text(b@),
{
    std::str::from_utf8(b).unwrap_or("").to_string()
}

/// Whether the key `b` is `name`.
fn is_key(b: &[u8], name: &[u8]) -> (r: bool)
    ensures
        r == (b@ == name@),
{
    bytes_eq(b, name)
}

/// Index of the first item at or after `off` that is not a tag head (a head that
/// cannot be read counts as one byte).
pub open spec fn spec_past_tags(b: Seq<u8>, off: int) -> int
    decreases b.len() - off,
{
    if off < 0 || off >= b.len() || major_of(b[off]) != 6 {
        off
    } else {
        let n = match spec_head(b, off) {
            Some((_v, next)) => if off < next <= b.len() { next } else { off + 1 },
            None => off + 1,
        };
        spec_past_tags(b, n)
    }
}

/// The index past the value at `off`, or one past `off` where it cannot be skipped,
/// no further than the end.
pub open spec fn spec_step(b: Seq<u8>, off: int) -> int {
    if off >= b.len() {
        off
    } else {
        match spec_skip(b, off) {
            Some(j) => if off < j <= b.len() { j } else { off + 1 },
            None => off + 1,
        }
    }
}

/// The event kind and operation code of a frame header.
pub struct HeaderView {
    pub t: Option<Seq<u8>>,
    pub op: Option<u64>,
}

/// The header fields of `n` map entries from `off`, over `h`; a later entry overrides.
pub open spec fn scan_header(b: Seq<u8>, off: int, n: nat, h: HeaderView) -> HeaderView
    decreases n,
{
    if n == 0 {
        h
    } else {
        match spec_string(b, off, 3) {
            None => h,
            Some((key, after)) => {
                let (next, h2) = if key == seq![0x74u8] {
                    match spec_string(b, after, 3) {
                        Some((v, nx)) => (nx, HeaderView { t: Some(v), ..h }),
                        None => (spec_step(b, after), h),
                    }
                } else if key == seq![0x6fu8, 0x70] {
                    match spec_head_of(b, after, 0) {
                        Some((v, nx)) => (nx, HeaderView { op: Some(v as u64), ..h }),
                        None => (spec_step(b, after), h),
                    }
                } else {
                    (spec_step(b, after), h)
                };
                scan_header(b, next, (n - 1) as nat, h2)
            },
        }
    }
}

/// The fields of the header map `b`.
pub open spec fn header_fields(b: Seq<u8>) -> HeaderView {
    match spec_head(b, spec_past_tags(b, 0)) {
        None => HeaderView { t: None, op: None },
        Some((n, first)) => scan_header(b, first, n, HeaderView { t: None, op: None }),
    }
}

/// The signature under the first `sig` key, among `n` entries from `off`, whose value
/// is a byte string.
pub open spec fn commit_sig_scan(c: Seq<u8>, off: int, n: nat) -> Option<Seq<u8>>
    decreases n,
{
    if n == 0 {
        None
    } else {
        match spec_string(c, off, 3) {
            None => None,
            Some((key, after)) => if key == seq![0x73u8, 0x69, 0x67] && spec_string(c, after, 2) is Some {
                Some(spec_string(c, after, 2).unwrap().0)
            } else {
                commit_sig_scan(c, spec_step(c, after), (n - 1) as nat)
            },
        }
    }
}

/// The signature a commit block carries in its top-level map.
pub open spec fn commit_sig(c: Seq<u8>) -> Option<Seq<u8>> {
    match spec_head(c, 0) {
        None => None,
        Some((n, first)) => commit_sig_scan(c, first, n),
    }
}

/// Index of the first item at or after `off` that is not a tag head.
fn skip_tags(buf: &[u8], off: usize) -> (r: usize)
    requires
        off <= buf@.len(),
    ensures
        off <= r <= buf@.len(),
        r == spec_past_tags(buf@, off as int),
{
    let len = buf.len();
    let mut o = off;
    while o < len && buf[o] / 32 == 6
        invariant
            len == buf@.len(),
            off <= o <= len,
            spec_past_tags(buf@, off as int) == spec_past_tags(buf@, o as int),
        decreases len - o,
    {
        o = match parse_cbor_len(buf, o) {
            Some((_, next)) => if next > o && next <= len { next } else { o + 1 },
            None => o + 1,
        };
    }
    o
}

/// The index past the value at `off`, or one past `off` where it cannot be skipped
/// (no further than the end).
fn skip_or_step(buf: &[u8], off: usize) -> (r: usize)
    requires
        off <= buf@.len(),
    ensures
        off <= r <= buf@.len(),
        off < buf@.len() ==> off < r,
        r == spec_step(buf@, off as int),
{
    if off >= buf.len() {
        return off;
    }
    match skip_cbor_value(buf, off) {
        Some(j) => if j > off && j <= buf.len() { j } else { off + 1 },
        None => off + 1,
    }
}

/// Reads the header map of a frame: its event kind `t` and operation code `op`.
fn parse_header(header: &[u8]) -> (r: (Option<&[u8]>, Option<u64>))
    ensures
        opt_view(r.0) == header_fields(header@).t,
        r.1 == header_fields(header@).op,
{
    let len = header.len();
    let mut event_t: Option<&[u8]> = None;
    let mut op_code: Option<u64> = None;
    let mut h_off = skip_tags(header, 0);
    if let Some((pairs, first)) = parse_cbor_len(header, h_off) {
        h_off = first;
        let mut k: usize = 0;
        while k < pairs
            invariant
                len == header@.len(),
                h_off <= len,
                k <= pairs,
                header_fields(header@) == scan_header(
                    header@,
                    h_off as int,
                    (pairs - k) as nat,
                    HeaderView { t: opt_view(event_t), op: op_code },
                ),
            ensures
                header_fields(header@) == (HeaderView { t: opt_view(event_t), op: op_code }),
            decreases pairs - k,
        {
            match parse_cbor_text(header, h_off) {
                None => break,
                Some((key, next_k)) => {
                    h_off = next_k;
                    let t_key: [u8; 1] = [0x74];
                    let op_key: [u8; 2] = [0x6f, 0x70];
                    assert(t_key@ =~= seq![0x74u8]);
                    assert(op_key@ =~= seq![0x6fu8, 0x70]);
                    if is_key(key, t_key.as_slice()) {
                        if let Some((v, n)) = parse_cbor_text(header, h_off) {
                            event_t = Some(v);
                            h_off = n;
                        } else {
                            h_off = skip_or_step(header, h_off);
                        }
                    } else if is_key(key, op_key.as_slice()) {
                        if let Some((v, n)) = parse_cbor_uint(header, h_off) {
                            op_code = Some(v);
                            h_off = n;
                        } else {
                            h_off = skip_or_step(header, h_off);
                        }
                    } else {
                        h_off = skip_or_step(header, h_off);
                    }
                },
            }
            k = k + 1;
        }
    }
    (event_t, op_code)
}

/// Index of the byte string of a content identifier at `off`, past a tag-42 head if
/// one stands there.
fn past_cid_tag(buf: &[u8], off: usize) -> (r: usize)
    requires
        off <= buf@.len(),
    ensures
        off <= r <= buf@.len(),
        r == spec_cid_at(buf@, off as int),
{
    if off < buf.len() && off + 1 < buf.len() && buf[off] == 0xd8 && buf[off + 1] == 0x2a {
        off + 2
    } else {
        off
    }
}

/// The fields of one operation, as the bytes they were read from.
pub struct OpView {
    pub action: Option<Seq<u8>>,
    pub path: Option<Seq<u8>>,
    pub cid: Option<Seq<u8>>,
}

/// No operation field.
pub open spec fn no_op() -> OpView {
    OpView { action: None, path: None, cid: None }
}

/// The fields of `m` entries of an operation map from `off`, and the index after them.
pub open spec fn op_fields(b: Seq<u8>, off: int, m: nat, o: OpView) -> (int, OpView)
    decreases m,
{
    if m == 0 {
        (off, o)
    } else {
        match spec_string(b, off, 3) {
            None => (off, o),
            Some((k, after)) => {
                let (next, o2) = if k == seq![0x61u8, 0x63, 0x74, 0x69, 0x6f, 0x6e] {
                    match spec_string(b, after, 3) {
                        Some((v, nx)) => (nx, OpView { action: Some(v), ..o }),
                        None => (spec_step(b, after), o),
                    }
                } else if k == seq![0x70u8, 0x61, 0x74, 0x68] {
                    match spec_string(b, after, 3) {
                        Some((v, nx)) => (nx, OpView { path: Some(v), ..o }),
                        None => (spec_step(b, after), o),
                    }
                } else if k == seq![0x63u8, 0x69, 0x64] {
                    match spec_string(b, spec_cid_at(b, after), 2) {
                        Some((v, nx)) => (nx, OpView { cid: Some(v), ..o }),
                        None => (spec_step(b, after), o),
                    }
                } else {
                    (spec_step(b, after), o)
                };
                op_fields(b, next, (m - 1) as nat, o2)
            },
        }
    }
}

/// The operations of an array of `n` operation maps from `idx`; reading stops at an
/// item that is not a map head.
pub open spec fn ops_from(b: Seq<u8>, idx: int, n: nat) -> Seq<OpView>
    decreases n,
{
    if n == 0 {
        Seq::empty()
    } else {
        match spec_head(b, idx) {
            None => Seq::empty(),
            Some((m, next_o)) => {
                let (idx2, op) = op_fields(b, next_o, m, no_op());
                seq![op] + ops_from(b, idx2, (n - 1) as nat)
            },
        }
    }
}

/// The text of an optional field read as UTF-8 (empty when absent).
pub open spec fn text_of(v: Option<Seq<u8>>) -> Seq<char> {
    match v {
        Some(x) => utf8_text(x),
        None => Seq::empty(),
    }
}

/// Whether the operation `r` holds the fields `o`.
pub open spec fn op_matches(r: RepoOp, o: OpView) -> bool {
    &&& r.action@ == text_of(o.action)
    &&& r.path@ == text_of(o.path)
    &&& match (r.cid, o.cid) {
        (None, None) => true,
        (Some(c), Some(v)) => c@ == v,
        _ => false,
    }
}

/// Whether the operations `r` hold the fields `os`, in order.
pub open spec fn ops_match(r: Seq<RepoOp>, os: Seq<OpView>) -> bool {
    r.len() == os.len() && forall|q: int| 0 <= q < r.len() ==> op_matches(#[trigger] r[q], os[q])
}

/// Reads the operations array whose `op_len` items start at `off`.
fn parse_ops(payload: &[u8], off: usize, op_len: usize) -> (r: Vec<RepoOp>)
    requires
        off <= payload@.len(),
    ensures
        ops_match(r@, ops_from(payload@, off as int, op_len as nat)),
{
    let len = payload.len();
    let mut ops: Vec<RepoOp> = Vec::new();
    let mut op_idx = off;
    let mut q: usize = 0;
    let ghost mut done: Seq<OpView> = Seq::empty();
    let k_action: [u8; 6] = [0x61, 0x63, 0x74, 0x69, 0x6f, 0x6e];
    let k_path: [u8; 4] = [0x70, 0x61, 0x74, 0x68];
    let k_cid: [u8; 3] = [0x63, 0x69, 0x64];
    assert(k_action@ =~= seq![0x61u8, 0x63, 0x74, 0x69, 0x6f, 0x6e]);
    assert(k_path@ =~= seq![0x70u8, 0x61, 0x74, 0x68]);
    assert(k_cid@ =~= seq![0x63u8, 0x69, 0x64]);
    assert(ops_from(payload@, off as int, op_len as nat) =~= done + ops_from(payload@, off as int, op_len as nat));
    while q < op_len
        invariant
            len == payload@.len(),
            op_idx <= len,
            q <= op_len,
            k_action@ == seq![0x61u8, 0x63, 0x74, 0x69, 0x6f, 0x6e],
            k_path@ == seq![0x70u8, 0x61, 0x74, 0x68],
            k_cid@ == seq![0x63u8, 0x69, 0x64],
            ops_match(ops@, done),
            ops_from(payload@, off as int, op_len as nat) == done + ops_from(payload@, op_idx as int, (op_len - q) as nat),
        ensures
            ops_match(ops@, ops_from(payload@, off as int, op_len as nat)),
        decreases op_len - q,
    {
        let (o_pairs, next_o) = match parse_cbor_len(payload, op_idx) {
            None => {
                assert(done + Seq::<OpView>::empty() =~= done);
                break;
            },
            Some(p) => p,
        };
        let ghost start_idx = op_idx;
        op_idx = next_o;
        let mut action = String::new();
        let mut path = String::new();
        let mut op_cid: Option<Vec<u8>> = None;
        let ghost mut cur = no_op();
        let mut m: usize = 0;
        while m < o_pairs
            invariant
                len == payload@.len(),
                op_idx <= len,
                m <= o_pairs,
                k_action@ == seq![0x61u8, 0x63, 0x74, 0x69, 0x6f, 0x6e],
                k_path@ == seq![0x70u8, 0x61, 0x74, 0x68],
                k_cid@ == seq![0x63u8, 0x69, 0x64],
                op_matches(RepoOp { action, path, cid: op_cid }, cur),
                op_fields(payload@, next_o as int, o_pairs as nat, no_op()) == op_fields(
                    payload@,
                    op_idx as int,
                    (o_pairs - m) as nat,
                    cur,
                ),
            ensures
                op_matches(RepoOp { action, path, cid: op_cid }, cur),
                op_fields(payload@, next_o as int, o_pairs as nat, no_op()) == (op_idx as int, cur),
            decreases o_pairs - m,
        {
            let (k, n_k) = match parse_cbor_text(payload, op_idx) {
                None => break,
                Some(p) => p,
            };
            op_idx = n_k;
            if is_key(k, k_action.as_slice()) {
                if let Some((v, n)) = parse_cbor_text(payload, op_idx) {
                    action = text_or_empty(v);
                    proof {
                        cur = OpView { action: Some(v@), ..cur };
                    }
                    op_idx = n;
                } else {
                    op_idx = skip_or_step(payload, op_idx);
                }
            } else if is_key(k, k_path.as_slice()) {
                if let Some((v, n)) = parse_cbor_text(payload, op_idx) {
                    path = text_or_empty(v);
                    proof {
                        cur = OpView { path: Some(v@), ..cur };
                    }
                    op_idx = n;
                } else {
                    op_idx = skip_or_step(payload, op_idx);
                }
            } else if is_key(k, k_cid.as_slice()) {
                let at = past_cid_tag(payload, op_idx);
                if let Some((v, n)) = parse_cbor_bytes(payload, at) {
                    op_cid = Some(copy_bytes(v));
                    proof {
                        cur = OpView { cid: Some(v@), ..cur };
                    }
                    op_idx = n;
                } else {
                    op_idx = skip_or_step(payload, op_idx);
                }
            } else {
                op_idx = skip_or_step(payload, op_idx);
            }
            m = m + 1;
        }
        let op = RepoOp { action, path, cid: op_cid };
        proof {
            let rest = ops_from(payload@, op_idx as int, (op_len - q - 1) as nat);
            assert(ops_from(payload@, start_idx as int, (op_len - q) as nat) == seq![cur] + rest);
            assert(done + (seq![cur] + rest) =~= done.push(cur) + rest);
        }
        let ghost before_ops = ops@;
        ops.push(op);
        proof {
            assert forall|i: int| 0 <= i < ops@.len() implies op_matches(#[trigger] ops@[i], done.push(cur)[i]) by {
                if i < done.len() {
                    assert(ops@[i] == before_ops[i]);
                }
            }
            done = done.push(cur);
        }
        q = q + 1;
    }
    ops
}

/// The signature held under the key `sig` of a commit block's top-level map.
fn commit_signature(commit_data: &[u8]) -> (r: Option<&[u8]>)
    ensures
        opt_view(r) == commit_sig(commit_data@),
{
    let len = commit_data.len();
    let (c_pairs, first) = match parse_cbor_len(commit_data, 0) {
        None => return None,
        Some(p) => p,
    };
    let mut c_off = first;
    let mut k: usize = 0;
    let sig_key: [u8; 3] = [0x73, 0x69, 0x67];
    assert(sig_key@ =~= seq![0x73u8, 0x69, 0x67]);
    while k < c_pairs
        invariant
            len == commit_data@.len(),
            c_off <= len,
            k <= c_pairs,
            sig_key@ == seq![0x73u8, 0x69, 0x67],
            commit_sig(commit_data@) == commit_sig_scan(commit_data@, c_off as int, (c_pairs - k) as nat),
        decreases c_pairs - k,
    {
        let (key, next_k) = match parse_cbor_text(commit_data, c_off) {
            None => return None,
            Some(p) => p,
        };
        c_off = next_k;
        if is_key(key, sig_key.as_slice()) {
            if let Some((sig_val, _)) = parse_cbor_bytes(commit_data, c_off) {
                return Some(sig_val);
            }
        }
        c_off = skip_or_step(commit_data, c_off);
        k = k + 1;
    }
    None
}

/// The top-level fields of a frame payload (its operations aside).
pub struct PayloadView {
    pub did: Option<Seq<u8>>,
    pub seq: Option<u64>,
    pub blocks: Option<Seq<u8>>,
    pub cid: Option<Seq<u8>>,
    pub sig: Option<Seq<u8>>,
    /// Where the last operations array starts, and how many items it announces.
    pub ops_at: Option<(int, nat)>,
}

/// The operations that an `ops_at` position locates (none when there is none).
pub open spec fn ops_of(b: Seq<u8>, ops_at: Option<(int, nat)>) -> Seq<OpView> {
    match ops_at {
        Some((i, n)) => ops_from(b, i, n),
        None => Seq::empty(),
    }
}

/// Index of an identifier's byte string at `off`, past a tag-42 head there.
pub open spec fn spec_cid_at(b: Seq<u8>, off: int) -> int {
    if 0 <= off && off + 1 < b.len() && b[off] == 0xd8 && b[off + 1] == 0x2a {
        off + 2
    } else {
        off
    }
}

/// Reads the value of payload key `key` at `off`: the index after it and the fields.
pub open spec fn payload_value(b: Seq<u8>, key: Seq<u8>, off: int, v: PayloadView) -> (int, PayloadView) {
    if key == seq![0x72u8, 0x65, 0x70, 0x6f] || key == seq![0x64u8, 0x69, 0x64] {
        match spec_string(b, off, 3) {
            Some((x, nx)) => (nx, PayloadView { did: Some(x), ..v }),
            None => match spec_string(b, off, 2) {
                Some((x, nx)) => (nx, PayloadView { did: Some(x), ..v }),
                None => (spec_step(b, off), v),
            },
        }
    } else if key == seq![0x6fu8, 0x70, 0x73] {
        match spec_head(b, off) {
            Some((n, next_op)) => (
                match spec_skip(b, off) {
                    Some(j) => if j <= b.len() { j } else { next_op },
                    None => next_op,
                },
                PayloadView { ops_at: Some((next_op, n)), ..v },
            ),
            None => (spec_step(b, off), v),
        }
    } else if key == seq![0x73u8, 0x65, 0x71] {
        match spec_head_of(b, off, 0) {
            Some((x, nx)) => (nx, PayloadView { seq: Some(x as u64), ..v }),
            None => (spec_step(b, off), v),
        }
    } else if key == seq![0x62u8, 0x6c, 0x6f, 0x63, 0x6b, 0x73] {
        match spec_string(b, off, 2) {
            Some((x, nx)) => (nx, PayloadView { blocks: Some(x), ..v }),
            None => (spec_step(b, off), v),
        }
    } else if key == seq![0x63u8, 0x6f, 0x6d, 0x6d, 0x69, 0x74] {
        match spec_string(b, spec_cid_at(b, off), 2) {
            Some((x, nx)) => (nx, PayloadView { cid: Some(x), ..v }),
            None => (spec_step(b, off), v),
        }
    } else if key == seq![0x73u8, 0x69, 0x67] {
        match spec_string(b, off, 2) {
            Some((x, nx)) => (nx, PayloadView { sig: Some(x), ..v }),
            None => {
                let at = if 0 <= off < b.len() && major_of(b[off]) == 6 {
                    match spec_head(b, off) {
                        Some((_t, next)) => next,
                        None => off + 1,
                    }
                } else {
                    off
                };
                match spec_string(b, at, 2) {
                    Some((x, nx)) => (nx, PayloadView { sig: Some(x), ..v }),
                    None => (spec_step(b, off), v),
                }
            },
        }
    } else {
        (spec_step(b, off), v)
    }
}

/// The payload fields of `n` map entries from `off`; a later entry overrides.
pub open spec fn scan_payload(b: Seq<u8>, off: int, n: nat, v: PayloadView) -> PayloadView
    decreases n,
{
    if n == 0 {
        v
    } else {
        match spec_string(b, off, 3) {
            None => v,
            Some((key, after)) => {
                let (next, v2) = payload_value(b, key, after, v);
                scan_payload(b, next, (n - 1) as nat, v2)
            },
        }
    }
}

/// No payload field.
pub open spec fn no_payload() -> PayloadView {
    PayloadView { did: None, seq: None, blocks: None, cid: None, sig: None, ops_at: None }
}

/// Whether a frame payload can be decoded: past any tags it is one complete map, and a
/// commit identifier it names is found in its block bag.
pub open spec fn firehose_ok(b: Seq<u8>) -> bool {
    let p0 = spec_past_tags(b, 0);
    let pv = payload_fields(b);
    &&& 0 <= p0 < b.len() && major_of(b[p0]) == 5 && spec_skip(b, p0) is Some
    &&& pv.cid is Some ==> (pv.blocks is Some && spec_extract(pv.blocks.unwrap(), pv.cid) is Some)
}

/// The fields of the payload map `b`.
pub open spec fn payload_fields(b: Seq<u8>) -> PayloadView {
    match spec_head(b, spec_past_tags(b, 0)) {
        None => no_payload(),
        Some((n, first)) => scan_payload(b, first, n, no_payload()),
    }
}

/// Decodes a frame. A frame holds a header item followed by a payload map; bytes that
/// hold a single item are taken as a bare block bag, whose first block is the commit.
/// Returns `None` for empty input, a header that is not a complete item, a payload that
/// is not one complete map (a truncated length anywhere in it), or a commit identifier
/// that names no block of the bag.
pub fn parse_input<'a>(input: &'a [u8]) -> (r: Option<CommitEnvelope<'a>>)
    ensures
        r is None <==> (input@.len() == 0 || spec_skip(input@, 0) is None || (spec_skip(input@, 0) != Some(
            input@.len() as int,
        ) && !firehose_ok(input@.subrange(spec_skip(input@, 0).unwrap(), input@.len() as int)))),
        r matches Some(env) ==> {
            &&& env.raw@ == input@
            &&& env.record_cid is None
            &&& if spec_skip(input@, 0) == Some(input@.len() as int) {
                &&& env.source_type@ == "car_file"@
                &&& env.blocks matches Some(b) && b@ == input@
                &&& opt_view(env.commit) == spec_extract(input@, None)
                &&& env.did is None && env.sequence is None && env.signature is None
                &&& env.t is None && env.op is None && env.cid is None
                &&& env.ops@.len() == 0
            } else {
                let end = spec_skip(input@, 0).unwrap();
                let h = header_fields(input@.subrange(0, end));
                let pv = payload_fields(input@.subrange(end, input@.len() as int));
                &&& env.source_type@ == "firehose"@
                &&& opt_view(env.t) == h.t
                &&& env.op == h.op
                &&& opt_view(env.did) == pv.did
                &&& env.sequence == pv.seq
                &&& opt_view(env.blocks) == pv.blocks
                &&& opt_view(env.cid) == pv.cid
                &&& ops_match(env.ops@, ops_of(input@.subrange(end, input@.len() as int), pv.ops_at))
                &&& opt_view(env.commit) == match env.blocks {
                    Some(b) => spec_extract(b@, opt_view(env.cid)),
                    None => None,
                }
                &&& opt_view(env.signature) == match pv.sig {
                    Some(x) => Some(x),
                    None => match opt_view(env.commit) {
                        Some(c) => commit_sig(c),
                        None => None,
                    },
                }
            }
        },
{
    if input.len() == 0 {
        return None;
    }
    let header_end = match skip_cbor_value(input, 0) {
        None => return None,
        Some(e) => e,
    };
    if header_end >= input.len() {
        let extracted = extract_from_car(input, None);
        return Some(CommitEnvelope {
            did: None,
            sequence: None,
            signature: None,
            t: None,
            op: None,
            raw: input,
            blocks: Some(input),
            commit: extracted,
            cid: None,
            record_cid: None,
            ops: Vec::new(),
            source_type: "car_file",
        });
    }
    let header = vstd::slice::slice_subrange(input, 0, header_end);
    let payload = vstd::slice::slice_subrange(input, header_end, input.len());
    let (event_t, op_code) = parse_header(header);
    let len = payload.len();

    let mut p_off = skip_tags(payload, 0);
    if p_off >= len || payload[p_off] / 32 != 5 {
        return None;
    }
    if skip_cbor_value(payload, p_off).is_none() {
        return None;
    }
    let (pairs, first) = match parse_cbor_len(payload, p_off) {
        Some(p) => p,
        None => (0, p_off),
    };
    p_off = first;
    let mut did: Option<&[u8]> = None;
    let mut seq: Option<u64> = None;
    let mut blocks_bytes: Option<&[u8]> = None;
    let mut commit_cid: Option<&[u8]> = None;
    let mut signature: Option<&[u8]> = None;
    let mut ops: Vec<RepoOp> = Vec::new();
    let ghost mut ops_at: Option<(int, nat)> = None;
    let mut k: usize = 0;
    let k_repo: [u8; 4] = [0x72, 0x65, 0x70, 0x6f];
    let k_did: [u8; 3] = [0x64, 0x69, 0x64];
    let k_ops: [u8; 3] = [0x6f, 0x70, 0x73];
    let k_seq: [u8; 3] = [0x73, 0x65, 0x71];
    let k_blocks: [u8; 6] = [0x62, 0x6c, 0x6f, 0x63, 0x6b, 0x73];
    let k_commit: [u8; 6] = [0x63, 0x6f, 0x6d, 0x6d, 0x69, 0x74];
    let k_sig: [u8; 3] = [0x73, 0x69, 0x67];
    assert(k_repo@ =~= seq![0x72u8, 0x65, 0x70, 0x6f] && k_did@ =~= seq![0x64u8, 0x69, 0x64]);
    assert(k_ops@ =~= seq![0x6fu8, 0x70, 0x73] && k_seq@ =~= seq![0x73u8, 0x65, 0x71]);
    assert(k_blocks@ =~= seq![0x62u8, 0x6c, 0x6f, 0x63, 0x6b, 0x73]);
    assert(k_commit@ =~= seq![0x63u8, 0x6f, 0x6d, 0x6d, 0x69, 0x74] && k_sig@ =~= seq![0x73u8, 0x69, 0x67]);
    assert(payload_fields(payload@) == scan_payload(payload@, p_off as int, pairs as nat, no_payload()));
    while k < pairs
        invariant
            len == payload@.len(),
            p_off <= len,
            k <= pairs,
            k_repo@ == seq![0x72u8, 0x65, 0x70, 0x6f],
            k_did@ == seq![0x64u8, 0x69, 0x64],
            k_ops@ == seq![0x6fu8, 0x70, 0x73],
            k_seq@ == seq![0x73u8, 0x65, 0x71],
            k_blocks@ == seq![0x62u8, 0x6c, 0x6f, 0x63, 0x6b, 0x73],
            k_commit@ == seq![0x63u8, 0x6f, 0x6d, 0x6d, 0x69, 0x74],
            k_sig@ == seq![0x73u8, 0x69, 0x67],
            payload_fields(payload@) == scan_payload(
                payload@,
                p_off as int,
                (pairs - k) as nat,
                PayloadView {
                    did: opt_view(did),
                    seq: seq,
                    blocks: opt_view(blocks_bytes),
                    cid: opt_view(commit_cid),
                    sig: opt_view(signature),
                    ops_at: ops_at,
                },
            ),
            ops_match(ops@, ops_of(payload@, ops_at)),
        ensures
            ops_match(ops@, ops_of(payload@, ops_at)),
            payload_fields(payload@) == (PayloadView {
                did: opt_view(did),
                seq: seq,
                blocks: opt_view(blocks_bytes),
                cid: opt_view(commit_cid),
                sig: opt_view(signature),
                ops_at: ops_at,
            }),
        decreases pairs - k,
    {
        let (key, next_k) = match parse_cbor_text(payload, p_off) {
            None => break,
            Some(p) => p,
        };
        p_off = next_k;
        if is_key(key, k_repo.as_slice()) || is_key(key, k_did.as_slice()) {
            let v = match parse_cbor_text(payload, p_off) {
                Some(p) => Some(p),
                None => parse_cbor_bytes(payload, p_off),
            };
            if let Some((v, n)) = v {
                did = Some(v);
                p_off = n;
            } else {
                p_off = skip_or_step(payload, p_off);
            }
        } else if is_key(key, k_ops.as_slice()) {
            if let Some((op_len, next_op)) = parse_cbor_len(payload, p_off) {
                let after = match skip_cbor_value(payload, p_off) {
                    Some(j) => if j <= len { j } else { next_op },
                    None => next_op,
                };
                if next_op <= len {
                    ops = parse_ops(payload, next_op, op_len);
                    proof {
                        ops_at = Some((next_op as int, op_len as nat));
                    }
                }
                p_off = after;
            } else {
                p_off = skip_or_step(payload, p_off);
            }
        } else if is_key(key, k_seq.as_slice()) {
            if let Some((v, n)) = parse_cbor_uint(payload, p_off) {
                seq = Some(v);
                p_off = n;
            } else {
                p_off = skip_or_step(payload, p_off);
            }
        } else if is_key(key, k_blocks.as_slice()) {
            if let Some((v, n)) = parse_cbor_bytes(payload, p_off) {
                blocks_bytes = Some(v);
                p_off = n;
            } else {
                p_off = skip_or_step(payload, p_off);
            }
        } else if is_key(key, k_commit.as_slice()) {
            let at = past_cid_tag(payload, p_off);
            if let Some((v, n)) = parse_cbor_bytes(payload, at) {
                commit_cid = Some(v);
                p_off = n;
            } else {
                p_off = skip_or_step(payload, p_off);
            }
        } else if is_key(key, k_sig.as_slice()) {
            if let Some((v, n)) = parse_cbor_bytes(payload, p_off) {
                signature = Some(v);
                p_off = n;
            } else {
                let at = if p_off < len && payload[p_off] / 32 == 6 {
                    match parse_cbor_len(payload, p_off) {
                        Some((_, next)) => next,
                        None => p_off + 1,
                    }
                } else {
                    p_off
                };
                if let Some((v, n)) = parse_cbor_bytes(payload, at) {
                    signature = Some(v);
                    p_off = n;
                } else {
                    p_off = skip_or_step(payload, p_off);
                }
            }
        } else {
            p_off = skip_or_step(payload, p_off);
        }
        k = k + 1;
    }

    let extracted = match blocks_bytes {
        Some(b) => extract_from_car(b, commit_cid),
        None => None,
    };
    if commit_cid.is_some() && extracted.is_none() {
        return None;
    }
    if signature.is_none() {
        if let Some(commit_data) = extracted {
            signature = commit_signature(commit_data);
        }
    }
    Some(CommitEnvelope {
        did,
        sequence: seq,
        signature,
        t: event_t,
        op: op_code,
        raw: input,
        blocks: blocks_bytes,
        commit: extracted,
        cid: commit_cid,
        record_cid: None,
        ops,
        source_type: "firehose",
    })
}

} // verus!
