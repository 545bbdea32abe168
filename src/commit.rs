//! Reading the fields of a commit block: `rev`, `did`, `sig`, `data`, `prev`, `version`.
use vstd::prelude::*;
use crate::car::copy_bytes;
use crate::cbor::{
    major_of, parse_cbor_bytes, parse_cbor_len, parse_cbor_tag, parse_cbor_text, parse_cbor_uint, skip_cbor_value,
    spec_head, spec_head_of, spec_skip, spec_string,
};
use crate::ledger::{lossy_text, utf8_lossy};

verus! {

/// The fields of a commit block. `prev` is `Some(None)` for an explicit null.
#[derive(Debug)]
pub struct ParsedCommit {
    pub rev: Option<String>,
    pub did: Option<String>,
    pub sig: Option<Vec<u8>>,
    pub data: Option<Vec<u8>>,
    pub prev: Option<Option<Vec<u8>>>,
    pub version: Option<u64>,
}

impl ParsedCommit {
    /// No field read.
    pub fn new() -> (r: Self)
        ensures
            r.rev is None && r.did is None && r.sig is None && r.data is None && r.prev is None && r.version is None,
    {
        ParsedCommit { rev: None, did: None, sig: None, data: None, prev: None, version: None }
    }
}

/// The raw bytes of each field found, before text decoding.
pub struct FieldsView {
    pub rev: Option<Seq<u8>>,
    pub did: Option<Seq<u8>>,
    pub sig: Option<Seq<u8>>,
    pub data: Option<Seq<u8>>,
    pub prev: Option<Option<Seq<u8>>>,
    pub version: Option<u64>,
}

/// No field found.
pub open spec fn no_fields() -> FieldsView {
    FieldsView { rev: None, did: None, sig: None, data: None, prev: None, version: None }
}

/// Key literals.
pub open spec fn lit_rev() -> Seq<u8> {
    seq![0x72u8, 0x65, 0x76]
}

pub open spec fn lit_did() -> Seq<u8> {
    seq![0x64u8, 0x69, 0x64]
}

pub open spec fn lit_sig() -> Seq<u8> {
    seq![0x73u8, 0x69, 0x67]
}

pub open spec fn lit_data() -> Seq<u8> {
    seq![0x64u8, 0x61, 0x74, 0x61]
}

pub open spec fn lit_prev() -> Seq<u8> {
    seq![0x70u8, 0x72, 0x65, 0x76]
}

pub open spec fn lit_version() -> Seq<u8> {
    seq![0x76u8, 0x65, 0x72, 0x73, 0x69, 0x6f, 0x6e]
}

/// The index past the value at `i`, or one past `i` where it cannot be skipped.
pub open spec fn skip_or_next(b: Seq<u8>, i: int) -> int {
    match spec_skip(b, i) {
        Some(j) => j,
        None => if i < b.len() { i + 1 } else { i },
    }
}

/// Reads the value of entry key `key` at `i`: the index after it and the fields updated.
/// A text or byte value that is empty, or of the wrong kind, leaves its field alone.
pub open spec fn read_value(b: Seq<u8>, key: Seq<u8>, i: int, f: FieldsView) -> (int, FieldsView) {
    if key == lit_rev() || key == lit_did() {
        match spec_string(b, i, 3) {
            None => (i, f),
            Some((v, next)) => (next, if v.len() == 0 {
                f
            } else if key == lit_rev() {
                FieldsView { rev: Some(v), ..f }
            } else {
                FieldsView { did: Some(v), ..f }
            }),
        }
    } else if key == lit_sig() {
        match spec_string(b, i, 2) {
            None => (i, f),
            Some((v, next)) => (next, if v.len() == 0 { f } else { FieldsView { sig: Some(v), ..f } }),
        }
    } else if key == lit_data() || key == lit_prev() {
        match spec_head_of(b, i, 6) {
            Some((t, after)) if t == 42 => match spec_string(b, after, 2) {
                None => (after, f),
                Some((v, next)) => (next, if v.len() == 0 {
                    f
                } else if key == lit_data() {
                    FieldsView { data: Some(v), ..f }
                } else {
                    FieldsView { prev: Some(Some(v)), ..f }
                }),
            },
            _ => if key == lit_prev() && 0 <= i < b.len() && b[i] == 0xf6 {
                (i + 1, FieldsView { prev: Some(None), ..f })
            } else {
                (skip_or_next(b, i), f)
            },
        }
    } else if key == lit_version() {
        match spec_head_of(b, i, 0) {
            None => (i, FieldsView { version: Some(0), ..f }),
            Some((v, next)) => (next, FieldsView { version: Some(v as u64), ..f }),
        }
    } else {
        (skip_or_next(b, i), f)
    }
}

/// The fields of `n` map entries from `i`; the scan stops at the end of the block or at
/// a key that is not text.
pub open spec fn scan_fields(b: Seq<u8>, i: int, n: nat, f: FieldsView) -> FieldsView
    decreases n,
{
    if n == 0 || i < 0 || i >= b.len() {
        f
    } else {
        match spec_string(b, i, 3) {
            None => f,
            Some((key, after)) => {
                let (next, g) = read_value(b, key, after, f);
                scan_fields(b, next, (n - 1) as nat, g)
            },
        }
    }
}

/// The fields of a commit block: a map read as `scan_fields`; a byte string or a tag is
/// looked through to the item inside; anything else has no field.
pub open spec fn commit_fields(b: Seq<u8>) -> FieldsView
    decreases b.len(),
{
    if b.len() == 0 {
        no_fields()
    } else if major_of(b[0]) == 2 {
        match spec_string(b, 0, 2) {
            None => no_fields(),
            Some((inner, _)) => if inner.len() < b.len() { commit_fields(inner) } else { no_fields() },
        }
    } else if major_of(b[0]) == 6 {
        match spec_head(b, 0) {
            Some((_t, after)) => if 0 < after < b.len() {
                commit_fields(b.subrange(after, b.len() as int))
            } else {
                no_fields()
            },
            None => no_fields(),
        }
    } else if major_of(b[0]) != 5 {
        no_fields()
    } else {
        match spec_head(b, 0) {
            None => no_fields(),
            Some((n, first)) => scan_fields(b, first, n, no_fields()),
        }
    }
}

/// The view of parsed fields, with texts as the bytes they were decoded from.
pub open spec fn fields_match(p: ParsedCommit, f: FieldsView) -> bool {
    &&& match (p.rev, f.rev) {
        (None, None) => true,
        (Some(s), Some(v)) => s@ == utf8_lossy(v) && (vstd::utf8::valid_utf8(v) ==> s@ == vstd::utf8::decode_utf8(v)),
        _ => false,
    }
    &&& match (p.did, f.did) {
        (None, None) => true,
        (Some(s), Some(v)) => s@ == utf8_lossy(v) && (vstd::utf8::valid_utf8(v) ==> s@ == vstd::utf8::decode_utf8(v)),
        _ => false,
    }
    &&& match (p.sig, f.sig) {
        (None, None) => true,
        (Some(s), Some(v)) => s@ == v,
        _ => false,
    }
    &&& match (p.data, f.data) {
        (None, None) => true,
        (Some(s), Some(v)) => s@ == v,
        _ => false,
    }
    &&& match (p.prev, f.prev) {
        (None, None) => true,
        (Some(None), Some(None)) => true,
        (Some(Some(s)), Some(Some(v))) => s@ == v,
        _ => false,
    }
    &&& p.version == f.version
}

fn key_eq(k: &[u8], lit: &[u8]) -> (r: bool)
    ensures
        r == (k@ == lit@),
{
    crate::car::bytes_eq(k, lit)
}

/// Reads the value of key `key` at `i` into `p`; returns the index after it.
fn read_field(b: &[u8], key: &[u8], i: usize, p: &mut ParsedCommit, Ghost(f): Ghost<FieldsView>) -> (r: (usize, Ghost<FieldsView>))
    requires
        i <= b@.len(),
        fields_match(*old(p), f),
    ensures
        r.0 as int == read_value(b@, key@, i as int, f).0,
        r.1@ == read_value(b@, key@, i as int, f).1,
        fields_match(*final(p), r.1@),
        r.0 <= b@.len(),
{
    let rev: [u8; 3] = [0x72, 0x65, 0x76];
    let did: [u8; 3] = [0x64, 0x69, 0x64];
    let sig: [u8; 3] = [0x73, 0x69, 0x67];
    let data: [u8; 4] = [0x64, 0x61, 0x74, 0x61];
    let prev: [u8; 4] = [0x70, 0x72, 0x65, 0x76];
    let version: [u8; 7] = [0x76, 0x65, 0x72, 0x73, 0x69, 0x6f, 0x6e];
    assert(rev@ =~= lit_rev() && did@ =~= lit_did() && sig@ =~= lit_sig());
    assert(data@ =~= lit_data() && prev@ =~= lit_prev() && version@ =~= lit_version());
    let is_rev = key_eq(key, rev.as_slice());
    if is_rev || key_eq(key, did.as_slice()) {
        match parse_cbor_text(b, i) {
            None => (i, Ghost(f)),
            Some((v, next)) => {
                if v.len() == 0 {
                    (next, Ghost(f))
                } else if is_rev {
                    p.rev = Some(lossy_text(v));
                    (next, Ghost(FieldsView { rev: Some(v@), ..f }))
                } else {
                    p.did = Some(lossy_text(v));
                    (next, Ghost(FieldsView { did: Some(v@), ..f }))
                }
            },
        }
    } else if key_eq(key, sig.as_slice()) {
        match parse_cbor_bytes(b, i) {
            None => (i, Ghost(f)),
            Some((v, next)) => {
                if v.len() == 0 {
                    (next, Ghost(f))
                } else {
                    p.sig = Some(copy_bytes(v));
                    (next, Ghost(FieldsView { sig: Some(v@), ..f }))
                }
            },
        }
    } else {
        let is_data = key_eq(key, data.as_slice());
        let is_prev = key_eq(key, prev.as_slice());
        if is_data || is_prev {
            let tagged = match parse_cbor_tag(b, i) {
                Some((42, after)) => Some(after),
                _ => None,
            };
            match tagged {
                Some(after) => match parse_cbor_bytes(b, after) {
                    None => (after, Ghost(f)),
                    Some((v, next)) => {
                        if v.len() == 0 {
                            (next, Ghost(f))
                        } else if is_data {
                            p.data = Some(copy_bytes(v));
                            (next, Ghost(FieldsView { data: Some(v@), ..f }))
                        } else {
                            p.prev = Some(Some(copy_bytes(v)));
                            (next, Ghost(FieldsView { prev: Some(Some(v@)), ..f }))
                        }
                    },
                },
                None => {
                    if is_prev && i < b.len() && b[i] == 0xf6 {
                        p.prev = Some(None);
                        (i + 1, Ghost(FieldsView { prev: Some(None), ..f }))
                    } else {
                        let j = match skip_cbor_value(b, i) {
                            Some(j) => j,
                            None => if i < b.len() { i + 1 } else { i },
                        };
                        (j, Ghost(f))
                    }
                },
            }
        } else if key_eq(key, version.as_slice()) {
            match parse_cbor_uint(b, i) {
                None => {
                    p.version = Some(0);
                    (i, Ghost(FieldsView { version: Some(0), ..f }))
                },
                Some((v, next)) => {
                    p.version = Some(v);
                    (next, Ghost(FieldsView { version: Some(v), ..f }))
                },
            }
        } else {
            let j = match skip_cbor_value(b, i) {
                Some(j) => j,
                None => if i < b.len() { i + 1 } else { i },
            };
            (j, Ghost(f))
        }
    }
}

/// Reads the fields of a commit block (see `commit_fields`).
pub fn parse_commit_block(bytes: &[u8]) -> (r: ParsedCommit)
    ensures
        fields_match(r, commit_fields(bytes@)),
    decreases bytes@.len(),
{
    let mut parsed = ParsedCommit::new();
    let len = bytes.len();
    if len == 0 {
        return parsed;
    }
    let major = bytes[0] / 32;
    if major == 2 {
        return match parse_cbor_bytes(bytes, 0) {
            None => parsed,
            Some((inner, _)) => if inner.len() < len { parse_commit_block(inner) } else { parsed },
        };
    } else if major == 6 {
        return match parse_cbor_len(bytes, 0) {
            Some((_t, after)) => if 0 < after && after < len {
                parse_commit_block(vstd::slice::slice_subrange(bytes, after, len))
            } else {
                parsed
            },
            None => parsed,
        };
    } else if major != 5 {
        return parsed;
    }
    let (n, first) = match parse_cbor_len(bytes, 0) {
        None => return parsed,
        Some(p) => p,
    };
    let mut i = first;
    let mut k: usize = 0;
    let ghost mut f = no_fields();
    while k < n
        invariant
            len == bytes@.len(),
            k <= n,
            i <= len,
            fields_match(parsed, f),
            commit_fields(bytes@) == scan_fields(bytes@, i as int, (n - k) as nat, f),
        ensures
            fields_match(parsed, f),
            commit_fields(bytes@) == f,
        decreases n - k,
    {
        if i >= len {
            break;
        }
        let (key, after) = match parse_cbor_text(bytes, i) {
            None => break,
            Some(p) => p,
        };
        let (next, Ghost(g)) = read_field(bytes, key, after, &mut parsed, Ghost(f));
        proof {
            f = g;
        }
        i = next;
        k = k + 1;
    }
    parsed
}

} // verus!
