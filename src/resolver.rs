//! Key resolution for author identifiers: where an identifier's key document lives, and
//! how keys are decoded from multibase, `did:key` and JWK forms.
use vstd::prelude::*;
use vstd::string::StringSliceAdditionalSpecFns;
use crate::car::bytes_eq;
use crate::cluster::append_bytes;
use crate::frame::{text_or_empty, utf8_text};
use base64::Engine;

verus! {

/// Key type tag of a secp256k1 key.
pub const KEY_SECP256K1: u8 = 1;

/// Key type tag of a P-256 key.
pub const KEY_P256: u8 = 2;

/// What base58 (Bitcoin alphabet) decoding gives for the text `s`, if it is valid.
pub uninterp spec fn base58_decoded(s: Seq<u8>) -> Option<Seq<u8>>;

/// What unpadded URL-safe base64 decoding gives for the text `s`, if it is valid.
pub uninterp spec fn base64url_decoded(s: Seq<u8>) -> Option<Seq<u8>>;

/// Relies on `bs58::decode(..).into_vec()`: the decoded bytes, or an error for text
/// outside the alphabet.
#[verifier::external_body]
fn base58_decode(s: &[u8]) -> (r: Option<Vec<u8>>)
    ensures
        match base58_decoded(s@) {
            None => r is None,
            Some(v) => r matches Some(w) && w@ == v,
        },
{
    bs58::decode(s).into_vec().ok()
}

/// Relies on `base64::engine::general_purpose::URL_SAFE_NO_PAD.decode`: the decoded
/// bytes, or an error for malformed text.
#[verifier::external_body]
fn base64url_decode(s: &[u8]) -> (r: Option<Vec<u8>>)
    ensures
        match base64url_decoded(s@) {
            None => r is None,
            Some(v) => r matches Some(w) && w@ == v,
        },
{
    base64::engine::general_purpose::URL_SAFE_NO_PAD.decode(s).ok()
}

/// Whether `s` begins with `p`.
pub open spec fn has_prefix(s: Seq<u8>, p: Seq<u8>) -> bool {
    p.len() <= s.len() && s.subrange(0, p.len() as int) == p
}

fn starts_with(s: &[u8], p: &[u8]) -> (r: bool)
    ensures
        r == has_prefix(s@, p@),
{
    if p.len() > s.len() {
        return false;
    }
    crate::car::bytes_eq(vstd::slice::slice_subrange(s, 0, p.len()), p)
}

/// `did:plc:`
pub open spec fn plc_prefix() -> Seq<u8> {
    seq![0x64u8, 0x69, 0x64, 0x3a, 0x70, 0x6c, 0x63, 0x3a]
}

/// `did:web:`
pub open spec fn web_prefix() -> Seq<u8> {
    seq![0x64u8, 0x69, 0x64, 0x3a, 0x77, 0x65, 0x62, 0x3a]
}

/// `did:key:z`
pub open spec fn key_prefix() -> Seq<u8> {
    seq![0x64u8, 0x69, 0x64, 0x3a, 0x6b, 0x65, 0x79, 0x3a, 0x7a]
}

/// A compressed key from the 35 bytes of a multicodec-tagged key: secp256k1 (`e7 01`)
/// or P-256 (`80 24`).
pub open spec fn tagged_key(b: Seq<u8>) -> Option<(Seq<u8>, u8)> {
    if b.len() != 35 {
        None
    } else if b[0] == 0xe7 && b[1] == 0x01 {
        Some((b.subrange(2, 35), 1u8))
    } else if b[0] == 0x80 && b[1] == 0x24 {
        Some((b.subrange(2, 35), 2u8))
    } else {
        None
    }
}

/// The key that a multibase text (`z` and base58) encodes.
pub open spec fn spec_multibase_key(s: Seq<u8>) -> Option<(Seq<u8>, u8)> {
    if s.len() == 0 || s[0] != 0x7a {
        None
    } else {
        match base58_decoded(s.subrange(1, s.len() as int)) {
            None => None,
            Some(b) => tagged_key(b),
        }
    }
}

/// The view of a decoded key.
pub open spec fn key_view(r: Option<([u8; 33], u8)>) -> Option<(Seq<u8>, u8)> {
    match r {
        None => None,
        Some((k, t)) => Some((k@, t)),
    }
}

/// Decodes a multibase public key (`z` then base58 of a multicodec-tagged key).
pub fn multibase_to_raw_pubkey(multibase_key: &str) -> (r: Option<([u8; 33], u8)>)
    ensures
        key_view(r) == spec_multibase_key(multibase_key.spec_bytes()),
{
    multibase_bytes_to_key(multibase_key.as_bytes())
}

/// Decodes a `did:key:z…` identifier into its key.
pub fn did_key_to_raw_pubkey(did_key: &str) -> (r: Option<([u8; 33], u8)>)
    ensures
        key_view(r) == if has_prefix(did_key.spec_bytes(), key_prefix()) {
            spec_multibase_key(did_key.spec_bytes().subrange(8, did_key.spec_bytes().len() as int))
        } else {
            None
        },
{
    let s = did_key.as_bytes();
    if !starts_with(s, &[0x64, 0x69, 0x64, 0x3a, 0x6b, 0x65, 0x79, 0x3a, 0x7a]) {
        proof {
            assert(seq![0x64u8, 0x69, 0x64, 0x3a, 0x6b, 0x65, 0x79, 0x3a, 0x7a] =~= key_prefix());
        }
        return None;
    }
    let rest = vstd::slice::slice_subrange(s, 8, s.len());
    multibase_bytes_to_key(rest)
}

fn multibase_bytes_to_key(s: &[u8]) -> (r: Option<([u8; 33], u8)>)
    ensures
        key_view(r) == spec_multibase_key(s@),
{
    if s.len() == 0 || s[0] != 0x7a {
        return None;
    }
    let decoded = match base58_decode(vstd::slice::slice_subrange(s, 1, s.len())) {
        None => return None,
        Some(d) => d,
    };
    if decoded.len() != 35 {
        return None;
    }
    let kt: u8 = if decoded[0] == 0xe7 && decoded[1] == 0x01 {
        KEY_SECP256K1
    } else if decoded[0] == 0x80 && decoded[1] == 0x24 {
        KEY_P256
    } else {
        return None;
    };
    let mut pk = [0u8; 33];
    let mut k: usize = 0;
    while k < 33
        invariant
            decoded@.len() == 35,
            k <= 33,
            pk@.len() == 33,
            forall|j: int| 0 <= j < k ==> pk@[j] == decoded@[j + 2],
        decreases 33 - k,
    {
        pk[k] = decoded[k + 2];
        k = k + 1;
    }
    assert(pk@ =~= decoded@.subrange(2, 35));
    Some((pk, kt))
}

/// The compressed form of an EC key given by JWK fields: `kty` `EC`, `crv` `secp256k1`
/// (type 1) or `P-256` (type 2), and 32-byte coordinates `x`, `y` in unpadded URL-safe
/// base64. The prefix byte is 2 for an even `y`, 3 for an odd one.
pub open spec fn spec_jwk_key(kty: Seq<char>, crv: Seq<char>, x: Seq<u8>, y: Seq<u8>) -> Option<(Seq<u8>, u8)> {
    let kt: u8 = if kty == "EC"@ && crv == "secp256k1"@ {
        1
    } else if kty == "EC"@ && crv == "P-256"@ {
        2
    } else {
        0
    };
    if kt == 0 {
        None
    } else {
        match (base64url_decoded(x), base64url_decoded(y)) {
            (Some(xb), Some(yb)) => if xb.len() == 32 && yb.len() == 32 {
                Some((seq![if yb[31] % 2 == 0 { 2u8 } else { 3u8 }] + xb, kt))
            } else {
                None
            },
            _ => None,
        }
    }
}

/// Decodes a JWK EC public key into its compressed form.
pub fn jwk_to_raw_pubkey(kty: &str, crv: &str, x_b64: &str, y_b64: &str) -> (r: Option<([u8; 33], u8)>)
    ensures
        key_view(r) == spec_jwk_key(kty@, crv@, x_b64.spec_bytes(), y_b64.spec_bytes()),
{
    let is_ec = str_eq(kty, "EC");
    let kt: u8 = if is_ec && str_eq(crv, "secp256k1") {
        KEY_SECP256K1
    } else if is_ec && str_eq(crv, "P-256") {
        KEY_P256
    } else {
        return None;
    };
    let x = match base64url_decode(x_b64.as_bytes()) {
        None => return None,
        Some(v) => v,
    };
    let y = match base64url_decode(y_b64.as_bytes()) {
        None => return None,
        Some(v) => v,
    };
    if x.len() != 32 || y.len() != 32 {
        return None;
    }
    let mut pk = [0u8; 33];
    pk[0] = if y[31] % 2 == 0 { 2 } else { 3 };
    let mut k: usize = 0;
    while k < 32
        invariant
            x@.len() == 32,
            k <= 32,
            pk@.len() == 33,
            pk@[0] == (if y@[31] % 2 == 0 { 2u8 } else { 3u8 }),
            forall|j: int| 0 <= j < k ==> pk@[j + 1] == x@[j],
        decreases 32 - k,
    {
        pk[k + 1] = x[k];
        k = k + 1;
    }
    assert(pk@ =~= seq![if y@[31] % 2 == 0 { 2u8 } else { 3u8 }] + x@);
    Some((pk, kt))
}

/// Text equality.
fn str_eq(a: &str, b: &str) -> (r: bool)
    ensures
        r == (a@ == b@),
{
    let r = crate::car::bytes_eq(a.as_bytes(), b.as_bytes());
    proof {
        if r {
            vstd::utf8::encode_utf8_decode_utf8(a@);
            vstd::utf8::encode_utf8_decode_utf8(b@);
        }
    }
    r
}

/// The bytes of `https://`.
pub open spec fn https_lit() -> Seq<u8> {
    seq![0x68u8, 0x74, 0x74, 0x70, 0x73, 0x3a, 0x2f, 0x2f]
}

/// The bytes of `/.well-known/did.json`.
pub open spec fn well_known_lit() -> Seq<u8> {
    seq![0x2fu8, 0x2e, 0x77, 0x65, 0x6c, 0x6c, 0x2d, 0x6b, 0x6e, 0x6f, 0x77, 0x6e, 0x2f, 0x64, 0x69, 0x64, 0x2e, 0x6a, 0x73, 0x6f, 0x6e]
}

/// The bytes of `/did.json`.
pub open spec fn did_json_lit() -> Seq<u8> {
    seq![0x2fu8, 0x64, 0x69, 0x64, 0x2e, 0x6a, 0x73, 0x6f, 0x6e]
}

/// The bytes of `https://plc.directory/`.
pub open spec fn plc_dir_lit() -> Seq<u8> {
    seq![0x68u8, 0x74, 0x74, 0x70, 0x73, 0x3a, 0x2f, 0x2f, 0x70, 0x6c, 0x63, 0x2e, 0x64, 0x69, 0x72, 0x65, 0x63, 0x74, 0x6f, 0x72, 0x79, 0x2f]
}

/// The bytes of `/log/last`.
pub open spec fn log_last_lit() -> Seq<u8> {
    seq![0x2fu8, 0x6c, 0x6f, 0x67, 0x2f, 0x6c, 0x61, 0x73, 0x74]
}

/// `s` with each `:` replaced by `/`.
pub open spec fn colons_to_slashes(s: Seq<u8>) -> Seq<u8> {
    s.map_values(|c: u8| if c == 0x3a { 0x2fu8 } else { c })
}

/// The URL of the key document of a `did:web` identifier whose part after `did:web:`
/// is `rest`: the host (and path segments, `:` read as `/`) under `https://`, then
/// `/.well-known/did.json` for a bare host or `/did.json` after a path.
pub open spec fn web_url(rest: Seq<u8>) -> Seq<u8> {
    https_lit() + colons_to_slashes(rest) + if rest.contains(0x3a) {
        did_json_lit()
    } else {
        well_known_lit()
    }
}

/// The URL of the latest operation of a `did:plc` identifier.
pub open spec fn plc_url(did: Seq<u8>) -> Seq<u8> {
    plc_dir_lit() + did + log_last_lit()
}

/// Appends `rest` with each `:` replaced by `/`; returns whether it held a `:`.
fn push_path(out: &mut Vec<u8>, rest: &[u8]) -> (r: bool)
    ensures
        final(out)@ == old(out)@ + colons_to_slashes(rest@),
        r == rest@.contains(0x3a),
{
    let mut had = false;
    let mut k: usize = 0;
    while k < rest.len()
        invariant
            k <= rest@.len(),
            out@ == old(out)@ + colons_to_slashes(rest@.subrange(0, k as int)),
            had == rest@.subrange(0, k as int).contains(0x3a),
        decreases rest@.len() - k,
    {
        let c = rest[k];
        if c == 0x3a {
            out.push(0x2f);
            had = true;
        } else {
            out.push(c);
        }
        proof {
            let a = rest@.subrange(0, k as int);
            let b = rest@.subrange(0, k + 1);
            assert(b =~= a.push(c));
            assert(colons_to_slashes(b) =~= colons_to_slashes(a).push(if c == 0x3a { 0x2fu8 } else { c }));
            if b.contains(0x3a) && !a.contains(0x3a) {
                let i = choose|i: int| 0 <= i < b.len() && b[i] == 0x3a;
                if i < k {
                    assert(a[i] == 0x3a);
                }
            }
            if a.contains(0x3a) {
                let i = choose|i: int| 0 <= i < a.len() && a[i] == 0x3a;
                assert(b[i] == 0x3a);
            }
            if c == 0x3a {
                assert(b[k as int] == 0x3a);
            }
        }
        k = k + 1;
    }
    assert(rest@.subrange(0, rest@.len() as int) =~= rest@);
    had
}

/// The key document URL of a `did:web` identifier; `None` for any other identifier.
pub fn did_web_url(did: &str) -> (r: Option<String>)
    ensures
        has_prefix(did.spec_bytes(), web_prefix()) <==> r is Some,
        r matches Some(u) ==> u@ == utf8_text(web_url(did.spec_bytes().subrange(8, did.spec_bytes().len() as int))),
{
    let s = did.as_bytes();
    let pre: [u8; 8] = [0x64, 0x69, 0x64, 0x3a, 0x77, 0x65, 0x62, 0x3a];
    assert(pre@ =~= web_prefix());
    if !starts_with(s, pre.as_slice()) {
        return None;
    }
    let rest = vstd::slice::slice_subrange(s, 8, s.len());
    let mut out: Vec<u8> = Vec::new();
    let https: [u8; 8] = [0x68, 0x74, 0x74, 0x70, 0x73, 0x3a, 0x2f, 0x2f];
    assert(https@ =~= https_lit());
    append_bytes(&mut out, https.as_slice());
    let had = push_path(&mut out, rest);
    if had {
        let tail: [u8; 9] = [0x2f, 0x64, 0x69, 0x64, 0x2e, 0x6a, 0x73, 0x6f, 0x6e];
        assert(tail@ =~= did_json_lit());
        append_bytes(&mut out, tail.as_slice());
    } else {
        let tail: [u8; 21] = [0x2f, 0x2e, 0x77, 0x65, 0x6c, 0x6c, 0x2d, 0x6b, 0x6e, 0x6f, 0x77, 0x6e, 0x2f, 0x64, 0x69, 0x64, 0x2e, 0x6a, 0x73, 0x6f, 0x6e];
        assert(tail@ =~= well_known_lit());
        append_bytes(&mut out, tail.as_slice());
    }
    assert(out@ =~= web_url(rest@));
    Some(text_or_empty(out.as_slice()))
}

/// How an author's key is found.
pub enum DidResolution {
    /// Fetch the key document at this URL (a `did:plc` or `did:web` identifier).
    Fetch(String),
    /// The identifier carries its key (`did:key`).
    Key([u8; 33], u8),
    /// The identifier cannot be resolved.
    Unresolvable,
}

/// Decides how to resolve author `did`: `did:plc` and `did:web` identifiers name a
/// document to fetch, a `did:key` identifier is decoded in place, anything else is
/// unresolvable.
pub fn resolve_did(did: &str) -> (r: DidResolution)
    ensures
        ({
            let b = did.spec_bytes();
            if has_prefix(b, plc_prefix()) {
                r matches DidResolution::Fetch(u) && u@ == utf8_text(plc_url(b))
            } else if has_prefix(b, web_prefix()) {
                r matches DidResolution::Fetch(u) && u@ == utf8_text(web_url(b.subrange(8, b.len() as int)))
            } else {
                match spec_multibase_key_of_did(b) {
                    Some((k, t)) => r matches DidResolution::Key(rk, rt) && rk@ == k && rt == t,
                    None => r matches DidResolution::Unresolvable,
                }
            }
        }),
{
    let s = did.as_bytes();
    let plc: [u8; 8] = [0x64, 0x69, 0x64, 0x3a, 0x70, 0x6c, 0x63, 0x3a];
    assert(plc@ =~= plc_prefix());
    if starts_with(s, plc.as_slice()) {
        let mut out: Vec<u8> = Vec::new();
        let head: [u8; 22] = [0x68, 0x74, 0x74, 0x70, 0x73, 0x3a, 0x2f, 0x2f, 0x70, 0x6c, 0x63, 0x2e, 0x64, 0x69, 0x72, 0x65, 0x63, 0x74, 0x6f, 0x72, 0x79, 0x2f];
        assert(head@ =~= plc_dir_lit());
        append_bytes(&mut out, head.as_slice());
        append_bytes(&mut out, s);
        let tail: [u8; 9] = [0x2f, 0x6c, 0x6f, 0x67, 0x2f, 0x6c, 0x61, 0x73, 0x74];
        assert(tail@ =~= log_last_lit());
        append_bytes(&mut out, tail.as_slice());
        return DidResolution::Fetch(text_or_empty(out.as_slice()));
    }
    if let Some(u) = did_web_url(did) {
        return DidResolution::Fetch(u);
    }
    match did_key_to_raw_pubkey(did) {
        Some((k, t)) => DidResolution::Key(k, t),
        None => DidResolution::Unresolvable,
    }
}

/// The key a `did:key` identifier carries.
pub open spec fn spec_multibase_key_of_did(b: Seq<u8>) -> Option<(Seq<u8>, u8)> {
    if has_prefix(b, key_prefix()) {
        spec_multibase_key(b.subrange(8, b.len() as int))
    } else {
        None
    }
}

/// Resolutions in flight: for each author being resolved, the frames waiting on it.
/// The first caller for an author claims it and fetches; later callers queue frames.
pub struct PendingResolutions {
    pending: Vec<(Vec<u8>, Vec<u64>)>,
}

impl PendingResolutions {
    /// Each author in flight, with its waiting frames in arrival order.
    pub closed spec fn view(&self) -> Map<Seq<u8>, Seq<u64>> {
        Map::new(
            |a: Seq<u8>| exists|i: int| 0 <= i < self.pending@.len() && (#[trigger] self.pending@[i]).0@ == a,
            |a: Seq<u8>| self.pending@[choose|i: int| 0 <= i < self.pending@.len() && (#[trigger] self.pending@[i]).0@ == a].1@,
        )
    }

    /// The invariant: no author appears twice.
    pub closed spec fn wf(&self) -> bool {
        forall|i: int, j: int| 0 <= i < j < self.pending@.len() ==> (#[trigger] self.pending@[i]).0@ != (#[trigger] self.pending@[j]).0@
    }

    /// Nothing in flight.
    pub fn new() -> (r: Self)
        ensures
            r.wf(),
            r@ == Map::<Seq<u8>, Seq<u64>>::empty(),
    {
        let r = PendingResolutions { pending: Vec::new() };
        assert(r@ =~= Map::<Seq<u8>, Seq<u64>>::empty());
        r
    }

    fn find(&self, author: &[u8]) -> (r: Option<usize>)
        requires
            self.wf(),
        ensures
            match r {
                None => !self@.contains_key(author@),
                Some(i) => i < self.pending@.len() && self.pending@[i as int].0@ == author@ && self@.contains_key(author@)
                    && self@[author@] == self.pending@[i as int].1@,
            },
    {
        let mut i: usize = 0;
        while i < self.pending.len()
            invariant
                self.wf(),
                i <= self.pending@.len(),
                forall|j: int| 0 <= j < i ==> (#[trigger] self.pending@[j]).0@ != author@,
            decreases self.pending@.len() - i,
        {
            if bytes_eq(self.pending[i].0.as_slice(), author) {
                proof {
                    let c = choose|j: int| 0 <= j < self.pending@.len() && (#[trigger] self.pending@[j]).0@ == author@;
                    if c != i {
                        assert(self.pending@[c].0@ != self.pending@[i as int].0@);
                    }
                }
                return Some(i);
            }
            i = i + 1;
        }
        None
    }

    /// Claims `author` for resolution on behalf of frame `frame`: true if no resolution
    /// of it was in flight (the caller fetches the key); otherwise the frame is queued
    /// behind the resolution in flight and the result is false.
    pub fn claim(&mut self, author: &[u8], frame: u64) -> (r: bool)
        requires
            old(self).wf(),
        ensures
            final(self).wf(),
            r == !old(self)@.contains_key(author@),
            r ==> final(self)@ == old(self)@.insert(author@, Seq::<u64>::empty()),
            !r ==> final(self)@ == old(self)@.insert(author@, old(self)@[author@].push(frame)),
    {
        match self.find(author) {
            None => {
                let ghost before = self.pending@;
                self.pending.push((crate::car::copy_bytes(author), Vec::new()));
                proof {
                    assert(self.wf()) by {
                        assert forall|i: int, j: int| 0 <= i < j < self.pending@.len() implies (#[trigger] self.pending@[i]).0@
                            != (#[trigger] self.pending@[j]).0@ by {
                            if j == before.len() {
                                assert(self.pending@[i] == before[i]);
                            }
                        }
                    }
                    assert(self@ =~= old(self)@.insert(author@, Seq::<u64>::empty())) by {
                        assert forall|a: Seq<u8>| #[trigger] self@.contains_key(a) == old(self)@.insert(author@, Seq::<u64>::empty()).contains_key(a) by {
                            if a != author@ && self@.contains_key(a) {
                                let i = choose|i: int| 0 <= i < self.pending@.len() && (#[trigger] self.pending@[i]).0@ == a;
                                assert(self.pending@[i] == before[i]);
                            }
                            if old(self)@.contains_key(a) {
                                let i = choose|i: int| 0 <= i < before.len() && (#[trigger] before[i]).0@ == a;
                                assert(self.pending@[i] == before[i]);
                            }
                            if a == author@ {
                                assert(self.pending@[before.len() as int].0@ == a);
                            }
                        }
                        assert forall|a: Seq<u8>| self@.contains_key(a) implies #[trigger] self@[a] == old(self)@.insert(author@, Seq::<u64>::empty())[a] by {
                            let i = choose|i: int| 0 <= i < self.pending@.len() && (#[trigger] self.pending@[i]).0@ == a;
                            if a == author@ {
                                assert(i == before.len()) by {
                                    if i < before.len() {
                                        assert(self.pending@[i] == before[i]);
                                    }
                                }
                            } else {
                                assert(self.pending@[i] == before[i]);
                                let k = choose|k: int| 0 <= k < before.len() && (#[trigger] before[k]).0@ == a;
                                assert(self.pending@[k] == before[k]);
                                if k != i {
                                    assert(self.pending@[k].0@ != self.pending@[i].0@);
                                }
                            }
                        }
                    }
                }
                true
            },
            Some(i) => {
                let ghost before = self.pending@;
                let (a, mut frames) = self.pending.remove(i);
                frames.push(frame);
                self.pending.insert(i, (a, frames));
                proof {
                    assert(self.pending@ =~= before.update(i as int, self.pending@[i as int]));
                    assert(self.wf()) by {
                        assert forall|x: int, y: int| 0 <= x < y < self.pending@.len() implies (#[trigger] self.pending@[x]).0@
                            != (#[trigger] self.pending@[y]).0@ by {
                            assert(self.pending@[x].0@ == before[x].0@);
                            assert(self.pending@[y].0@ == before[y].0@);
                        }
                    }
                    assert(self@ =~= old(self)@.insert(author@, old(self)@[author@].push(frame))) by {
                        assert forall|a: Seq<u8>| #[trigger] self@.contains_key(a) == old(self)@.contains_key(a) by {
                            if self@.contains_key(a) {
                                let k = choose|k: int| 0 <= k < self.pending@.len() && (#[trigger] self.pending@[k]).0@ == a;
                                assert(before[k].0@ == a);
                            }
                            if old(self)@.contains_key(a) {
                                let k = choose|k: int| 0 <= k < before.len() && (#[trigger] before[k]).0@ == a;
                                assert(self.pending@[k].0@ == a);
                            }
                        }
                        assert forall|a: Seq<u8>| self@.contains_key(a) implies #[trigger] self@[a] == old(self)@.insert(author@, old(self)@[author@].push(frame))[a] by {
                            let k = choose|k: int| 0 <= k < self.pending@.len() && (#[trigger] self.pending@[k]).0@ == a;
                            let k0 = choose|k0: int| 0 <= k0 < before.len() && (#[trigger] before[k0]).0@ == a;
                            assert(before[k].0@ == a);
                            if k0 != k {
                                assert(before[k0].0@ != before[k].0@);
                            }
                            if a == author@ {
                                if k != i {
                                    assert(self.pending@[k].0@ != self.pending@[i as int].0@);
                                }
                            } else {
                                assert(k != i);
                            }
                        }
                    }
                }
                false
            },
        }
    }

    /// Ends the resolution of `author`: returns the frames queued behind it, in arrival
    /// order, and forgets the author (nothing if it was not in flight).
    pub fn complete(&mut self, author: &[u8]) -> (r: Vec<u64>)
        requires
            old(self).wf(),
        ensures
            final(self).wf(),
            final(self)@ == old(self)@.remove(author@),
            r@ == if old(self)@.contains_key(author@) { old(self)@[author@] } else { Seq::<u64>::empty() },
    {
        match self.find(author) {
            None => {
                assert(old(self)@.remove(author@) =~= old(self)@);
                Vec::new()
            },
            Some(i) => {
                let ghost before = self.pending@;
                let (_a, frames) = self.pending.remove(i);
                proof {
                    assert(self.wf()) by {
                        assert forall|x: int, y: int| 0 <= x < y < self.pending@.len() implies (#[trigger] self.pending@[x]).0@
                            != (#[trigger] self.pending@[y]).0@ by {
                            let bx = if x < i { x } else { x + 1 };
                            let by_ = if y < i { y } else { y + 1 };
                            assert(self.pending@[x] == before[bx]);
                            assert(self.pending@[y] == before[by_]);
                        }
                    }
                    assert(self@ =~= old(self)@.remove(author@)) by {
                        assert forall|a: Seq<u8>| #[trigger] self@.contains_key(a) == old(self)@.remove(author@).contains_key(a) by {
                            if self@.contains_key(a) {
                                let k = choose|k: int| 0 <= k < self.pending@.len() && (#[trigger] self.pending@[k]).0@ == a;
                                let bk = if k < i { k } else { k + 1 };
                                assert(self.pending@[k] == before[bk]);
                                if a == author@ {
                                    assert(before[bk].0@ != before[i as int].0@);
                                }
                            }
                            if old(self)@.contains_key(a) && a != author@ {
                                let k = choose|k: int| 0 <= k < before.len() && (#[trigger] before[k]).0@ == a;
                                assert(k != i);
                                let nk = if k < i { k } else { k - 1 };
                                assert(self.pending@[nk] == before[k]);
                            }
                        }
                        assert forall|a: Seq<u8>| self@.contains_key(a) implies #[trigger] self@[a] == old(self)@.remove(author@)[a] by {
                            let k = choose|k: int| 0 <= k < self.pending@.len() && (#[trigger] self.pending@[k]).0@ == a;
                            let bk = if k < i { k } else { k + 1 };
                            assert(self.pending@[k] == before[bk]);
                            let k0 = choose|k0: int| 0 <= k0 < before.len() && (#[trigger] before[k0]).0@ == a;
                            if k0 != bk {
                                assert(before[k0].0@ != before[bk].0@);
                            }
                        }
                    }
                }
                frames
            },
        }
    }
}

} // verus!
