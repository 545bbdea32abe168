//! The producer registry: one fixed record per endpoint, with the failure penalty schedule.
use vstd::prelude::*;
use vstd::arithmetic::power2::{pow2, lemma_pow2_unfold};
use vstd::string::StringSliceAdditionalSpecFns;
use vstd::bytes::{
    spec_u32_to_le_bytes, spec_u64_to_le_bytes, u32_from_le_bytes, u32_to_le_bytes, u64_from_le_bytes, u64_to_le_bytes,
};
use crate::cluster::append_bytes;

verus! {

/// Size in bytes of one registry record.
pub const ENTRY_SIZE: usize = 256;

/// Room for the URL in a record, its terminating zero byte included.
pub const URL_MAX_LEN: usize = 200;

/// How many records the registry grows by when it is full.
pub const GROWTH: usize = 4096;

/// Longest penalty, in seconds.
pub const MAX_PENALTY_SECS: u64 = 3600;

/// The penalty after `fails` consecutive failures: 30 seconds doubled for each failure
/// up to seven, at most an hour.
pub open spec fn spec_penalty(fails: nat) -> nat {
    let p = 30 * pow2(if fails < 7 { fails } else { 7 });
    if p < 3600 { p } else { 3600 }
}

/// Penalty in seconds after `fails` consecutive failures.
pub fn penalty_secs(fails: u32) -> (r: u64)
    ensures
        r as nat == spec_penalty(fails as nat),
{
    let e: u32 = if fails < 7 { fails } else { 7 };
    let mut p: u64 = 30;
    let mut i: u32 = 0;
    proof {
        vstd::arithmetic::power2::lemma2_to64();
    }
    while i < e
        invariant
            e <= 7,
            i <= e,
            p as nat == 30 * pow2(i as nat),
            p <= 30 * 128,
        decreases e - i,
    {
        proof {
            lemma_pow2_unfold((i + 1) as nat);
            vstd::arithmetic::power2::lemma_pow2_strictly_increases(i as nat, 7);
            vstd::arithmetic::power2::lemma2_to64();
        }
        p = p * 2;
        i = i + 1;
    }
    if p < MAX_PENALTY_SECS { p } else { MAX_PENALTY_SECS }
}

/// One endpoint of the registry.
#[derive(Clone, Copy, Debug)]
pub struct PdsEntry {
    /// URL bytes; the first zero byte ends the URL.
    pub url: [u8; 200],
    /// Consecutive failures.
    pub fail_count: u32,
    /// Alignment padding.
    pub pad: u32,
    /// Time of the last successful connection.
    pub last_success: u64,
    /// Time of the last connection attempt.
    pub last_attempt: u64,
    /// Time until which no worker is started for this endpoint.
    pub penalty_until: u64,
    /// Reserved.
    pub reserved: [u8; 24],
}

/// Index of the first zero byte of `url` at or after `k`, or its length if there is none.
pub open spec fn first_zero_from(url: Seq<u8>, k: int) -> int
    decreases url.len() - k,
{
    if k < 0 || k >= url.len() {
        url.len() as int
    } else if url[k] == 0 {
        k
    } else {
        first_zero_from(url, k + 1)
    }
}

/// The URL stored in the record bytes `url`: everything before the first zero byte.
pub open spec fn stored_url(url: Seq<u8>) -> Seq<u8> {
    url.subrange(0, first_zero_from(url, 0))
}

proof fn lemma_first_zero(url: Seq<u8>, k: int, n: int)
    requires
        0 <= k <= n < url.len(),
        url[n] == 0,
        forall|j: int| k <= j < n ==> url[j] != 0,
    ensures
        first_zero_from(url, k) == n,
    decreases n - k,
{
    if k < n {
        lemma_first_zero(url, k + 1, n);
    }
}

/// The text of bytes decoded as UTF-8, with each invalid sequence replaced.
pub uninterp spec fn utf8_lossy(b: Seq<u8>) -> Seq<char>;

/// Relies on `String::from_utf8_lossy`: the text depends on the bytes alone, no bytes
/// give no text, and valid UTF-8 comes back unchanged.
#[verifier::external_body]
pub(crate) fn lossy_text(b: &[u8]) -> (r: String)
    ensures
        r@ == utf8_lossy(b@),
        b@.len() == 0 ==> r@.len() == 0,
        vstd::utf8::valid_utf8(b@) ==> r@ == vstd::utf8::decode_utf8(b@),
{
    String::from_utf8_lossy(b).to_string()
}

impl PdsEntry {
    /// A fresh record for `url_str`; `None` if the URL is 200 bytes or longer or holds
    /// an escape (0x1b) or zero byte.
    pub fn new(url_str: &str) -> (r: Option<Self>)
        ensures
            r is Some <==> (url_str.spec_bytes().len() < 200 && forall|k: int|
                0 <= k < url_str.spec_bytes().len() ==> url_str.spec_bytes()[k] != 0x1b
                    && url_str.spec_bytes()[k] != 0),
            r matches Some(e) ==> {
                &&& stored_url(e.url@) == url_str.spec_bytes()
                &&& e.url@ == url_str.spec_bytes() + Seq::new((200 - url_str.spec_bytes().len()) as nat, |i: int| 0u8)
                &&& e.reserved@ == Seq::new(24, |i: int| 0u8) && e.pad == 0
                &&& e.fail_count == 0 && e.last_success == 0 && e.last_attempt == 0
                &&& e.penalty_until == 0
            },
    {
        let bytes = url_str.as_bytes();
        let n = bytes.len();
        if n >= URL_MAX_LEN {
            return None;
        }
        let mut url = [0u8; 200];
        let mut k: usize = 0;
        while k < n
            invariant
                n == bytes@.len(),
                bytes@ == url_str.spec_bytes(),
                n < 200,
                k <= n,
                url@.len() == 200,
                forall|j: int| 0 <= j < k ==> url@[j] == bytes@[j] && bytes@[j] != 0x1b && bytes@[j] != 0,
                forall|j: int| k <= j < 200 ==> url@[j] == 0,
            decreases n - k,
        {
            let b = bytes[k];
            if b == 0x1b || b == 0 {
                return None;
            }
            url[k] = b;
            k = k + 1;
        }
        proof {
            lemma_first_zero(url@, 0, n as int);
            assert(url@.subrange(0, n as int) =~= bytes@);
            assert(url@ =~= bytes@ + Seq::new((200 - n) as nat, |i: int| 0u8));
        }
        let reserved = [0u8; 24];
        assert(reserved@ =~= Seq::new(24, |i: int| 0u8));
        Some(PdsEntry {
            url,
            fail_count: 0,
            pad: 0,
            last_success: 0,
            last_attempt: 0,
            penalty_until: 0,
            reserved,
        })
    }

    /// The URL of the record: its bytes up to the first zero byte, read as UTF-8.
    pub fn get_url(&self) -> (r: String)
        ensures
            r@ == utf8_lossy(stored_url(self.url@)),
            vstd::utf8::valid_utf8(stored_url(self.url@)) ==> r@ == vstd::utf8::decode_utf8(stored_url(self.url@)),
    {
        let mut k: usize = 0;
        while k < 200
            invariant
                self.url@.len() == 200,
                k <= 200,
                first_zero_from(self.url@, 0) == first_zero_from(self.url@, k as int),
            ensures
                k <= 200,
                first_zero_from(self.url@, 0) == first_zero_from(self.url@, k as int),
                k == 200 || self.url@[k as int] == 0,
            decreases 200 - k,
        {
            if self.url[k] == 0 {
                break;
            }
            k = k + 1;
        }
        assert(first_zero_from(self.url@, k as int) == k as int);
        let s = vstd::slice::slice_subrange(self.url.as_slice(), 0, k);
        lossy_text(s)
    }

    /// The 256 bytes of the record: URL, failure count, padding, the three timestamps
    /// and the reserved bytes, integers little-endian.
    pub open spec fn spec_bytes(&self) -> Seq<u8> {
        self.url@ + spec_u32_to_le_bytes(self.fail_count) + spec_u32_to_le_bytes(self.pad) + spec_u64_to_le_bytes(
            self.last_success,
        ) + spec_u64_to_le_bytes(self.last_attempt) + spec_u64_to_le_bytes(self.penalty_until) + self.reserved@
    }

    /// Lays the record out in its 256 bytes.
    pub fn to_bytes(&self) -> (r: Vec<u8>)
        ensures
            r@ == self.spec_bytes(),
    {
        let mut out: Vec<u8> = Vec::new();
        append_bytes(&mut out, self.url.as_slice());
        append_bytes(&mut out, u32_to_le_bytes(self.fail_count).as_slice());
        append_bytes(&mut out, u32_to_le_bytes(self.pad).as_slice());
        append_bytes(&mut out, u64_to_le_bytes(self.last_success).as_slice());
        append_bytes(&mut out, u64_to_le_bytes(self.last_attempt).as_slice());
        append_bytes(&mut out, u64_to_le_bytes(self.penalty_until).as_slice());
        append_bytes(&mut out, self.reserved.as_slice());
        assert(out@ =~= self.spec_bytes());
        out
    }

    /// Reads a record from its 256 bytes; `None` for any other length.
    pub fn from_bytes(b: &[u8]) -> (r: Option<Self>)
        ensures
            b@.len() == 256 <==> r is Some,
            r matches Some(e) ==> e.spec_bytes() == b@,
    {
        if b.len() != ENTRY_SIZE {
            return None;
        }
        let mut url = [0u8; 200];
        let mut k: usize = 0;
        while k < 200
            invariant
                b@.len() == 256,
                k <= 200,
                forall|j: int| 0 <= j < k ==> url@[j] == b@[j],
            decreases 200 - k,
        {
            url[k] = b[k];
            k = k + 1;
        }
        let mut reserved = [0u8; 24];
        let mut k: usize = 0;
        while k < 24
            invariant
                b@.len() == 256,
                k <= 24,
                forall|j: int| 0 <= j < k ==> reserved@[j] == b@[232 + j],
            decreases 24 - k,
        {
            reserved[k] = b[232 + k];
            k = k + 1;
        }
        let e = PdsEntry {
            url,
            fail_count: u32_from_le_bytes(vstd::slice::slice_subrange(b, 200, 204)),
            pad: u32_from_le_bytes(vstd::slice::slice_subrange(b, 204, 208)),
            last_success: u64_from_le_bytes(vstd::slice::slice_subrange(b, 208, 216)),
            last_attempt: u64_from_le_bytes(vstd::slice::slice_subrange(b, 216, 224)),
            penalty_until: u64_from_le_bytes(vstd::slice::slice_subrange(b, 224, 232)),
            reserved,
        };
        proof {
            vstd::bytes::lemma_auto_spec_u32_to_from_le_bytes();
            vstd::bytes::lemma_auto_spec_u64_to_from_le_bytes();
            assert(spec_u32_to_le_bytes(e.fail_count) == b@.subrange(200, 204));
            assert(spec_u32_to_le_bytes(e.pad) == b@.subrange(204, 208));
            assert(spec_u64_to_le_bytes(e.last_success) == b@.subrange(208, 216));
            assert(spec_u64_to_le_bytes(e.last_attempt) == b@.subrange(216, 224));
            assert(spec_u64_to_le_bytes(e.penalty_until) == b@.subrange(224, 232));
            assert(e.spec_bytes() =~= b@);
        }
        Some(e)
    }

    /// Whether the endpoint is under penalty at time `now`.
    pub fn is_penalized(&self, now: u64) -> (r: bool)
        ensures
            r == (self.penalty_until > now),
    {
        self.penalty_until > now
    }

    /// Records a successful connection at `now`: both timestamps move to `now`, and
    /// any failure count and penalty are cleared.
    pub fn record_success(&mut self, now: u64)
        ensures
            final(self).last_success == now,
            final(self).last_attempt == now,
            final(self).fail_count == 0,
            old(self).fail_count > 0 ==> final(self).penalty_until == 0,
            old(self).fail_count == 0 ==> final(self).penalty_until == old(self).penalty_until,
            final(self).url == old(self).url,
    {
        self.last_success = now;
        self.last_attempt = now;
        if self.fail_count > 0 {
            self.fail_count = 0;
            self.penalty_until = 0;
        }
    }

    /// Records a failed connection at `now`: the failure count grows by one (it stays
    /// at its maximum there) and the penalty runs from `now` for `penalty_secs` of the
    /// new count, saturating at the end of time.
    pub fn record_failure(&mut self, now: u64)
        ensures
            final(self).fail_count as int == if old(self).fail_count < u32::MAX {
                old(self).fail_count + 1
            } else {
                old(self).fail_count as int
            },
            final(self).last_attempt == now,
            final(self).penalty_until as int == if now + spec_penalty(final(self).fail_count as nat) <= u64::MAX {
                now + spec_penalty(final(self).fail_count as nat)
            } else {
                u64::MAX as int
            },
            final(self).last_success == old(self).last_success,
            final(self).url == old(self).url,
    {
        if self.fail_count < u32::MAX {
            self.fail_count = self.fail_count + 1;
        }
        self.last_attempt = now;
        let p = penalty_secs(self.fail_count);
        self.penalty_until = now.saturating_add(p);
    }
}

/// Law of the penalty schedule: after `n` consecutive failures starting from a clear
/// record, the penalty ends `min(30 * 2^min(n, 7), 3600)` seconds after the last failure.
pub proof fn lemma_backoff_schedule(n: nat, now: u64)
    requires
        now + 3600 <= u64::MAX,
    ensures
        spec_penalty(n) == if 30 * pow2(if n < 7 { n } else { 7 }) < 3600 {
            30 * pow2(if n < 7 { n } else { 7 })
        } else {
            3600
        },
        spec_penalty(n) <= 3600,
        now + spec_penalty(n) <= u64::MAX,
{
}

/// How a failed connection attempt ended, as far as the decision to retry goes.
pub enum ConnectFailure {
    /// The server answered the upgrade request with this HTTP status.
    Http(u16),
    /// The endpoint's URL scheme cannot be streamed.
    UnsupportedScheme,
    /// Any other failure (refused, timed out, TLS, dropped).
    Other,
}

/// Consecutive failures after which a server error (5xx) blocks an endpoint.
pub const SUSTAINED_FAILURES: u32 = 5;

/// Whether a failure rules the endpoint out for good, given the failures it had before:
/// a refusal (400, 401, 403, 404), a web page instead of an upgrade (200), an
/// unsupported scheme, or a server error (500 and up) after sustained failures.
/// Everything else is retried after a penalty.
pub open spec fn spec_unrecoverable(f: ConnectFailure, fails: u32) -> bool {
    match f {
        ConnectFailure::Http(s) => s == 400 || s == 401 || s == 403 || s == 404 || s == 200 || (s >= 500 && fails
            >= 5),
        ConnectFailure::UnsupportedScheme => true,
        ConnectFailure::Other => false,
    }
}

/// Decides whether a failure blocks the endpoint permanently.
pub fn is_unrecoverable(f: &ConnectFailure, fails: u32) -> (r: bool)
    ensures
        r == spec_unrecoverable(*f, fails),
{
    match f {
        ConnectFailure::Http(s) => *s == 400 || *s == 401 || *s == 403 || *s == 404 || *s == 200 || (*s >= 500 && fails
            >= SUSTAINED_FAILURES),
        ConnectFailure::UnsupportedScheme => true,
        ConnectFailure::Other => false,
    }
}

/// Whether the supervisor may start a worker for `entry` at time `now`: it is not
/// blocked for good, has no worker running, and its penalty is over.
pub fn may_spawn(entry: &PdsEntry, now: u64, blocked: bool, active: bool) -> (r: bool)
    ensures
        r == (!blocked && !active && entry.penalty_until <= now),
{
    !blocked && !active && entry.penalty_until <= now
}

/// The registry of endpoints, in the order they were added.
pub struct PdsLedger {
    entries: Vec<PdsEntry>,
}

impl PdsLedger {
    /// Whether the record is in use (its URL is not empty).
    pub open spec fn in_use(e: PdsEntry) -> bool {
        e.url@[0] != 0
    }

    /// The records, free slots included.
    pub closed spec fn view(&self) -> Seq<PdsEntry> {
        self.entries@
    }

    /// A registry of `capacity` free records (at least one).
    pub fn with_capacity(capacity: usize) -> (r: Self)
        ensures
            r@.len() == if capacity == 0 { 1 } else { capacity as int },
            forall|i: int| 0 <= i < r@.len() ==> !Self::in_use(#[trigger] r@[i]),
    {
        let n = if capacity == 0 { 1 } else { capacity };
        let mut entries: Vec<PdsEntry> = Vec::new();
        let mut k: usize = 0;
        while k < n
            invariant
                k <= n,
                entries@.len() == k,
                forall|i: int| 0 <= i < k ==> !Self::in_use(#[trigger] entries@[i]),
            decreases n - k,
        {
            entries.push(PdsEntry {
                url: [0u8; 200],
                fail_count: 0,
                pad: 0,
                last_success: 0,
                last_attempt: 0,
                penalty_until: 0,
                reserved: [0u8; 24],
            });
            k = k + 1;
        }
        PdsLedger { entries }
    }

    /// The number of records in use: one past the last record whose URL is not empty.
    pub fn entry_count(&self) -> (r: usize)
        ensures
            r <= self@.len(),
            r > 0 ==> Self::in_use(self@[r - 1]),
            forall|i: int| r <= i < self@.len() ==> !Self::in_use(#[trigger] self@[i]),
    {
        let mut i = self.entries.len();
        while i > 0
            invariant
                i <= self.entries@.len(),
                forall|j: int| i <= j < self.entries@.len() ==> !Self::in_use(#[trigger] self.entries@[j]),
            decreases i,
        {
            if self.entries[i - 1].url[0] != 0 {
                return i;
            }
            i = i - 1;
        }
        0
    }

    /// The record at `index`, if the registry has one there.
    pub fn get_entry(&self, index: usize) -> (r: Option<&PdsEntry>)
        ensures
            index < self@.len() <==> r is Some,
            r matches Some(e) ==> *e == self@[index as int],
    {
        if index >= self.entries.len() {
            return None;
        }
        Some(&self.entries[index])
    }

    /// Replaces the record at `index`; returns false (and changes nothing) if there is none.
    pub fn set_entry(&mut self, index: usize, entry: PdsEntry) -> (r: bool)
        ensures
            r == (index < old(self)@.len()),
            r ==> final(self)@ == old(self)@.update(index as int, entry),
            !r ==> final(self)@ == old(self)@,
    {
        if index >= self.entries.len() {
            return false;
        }
        self.entries.set(index, entry);
        true
    }

    /// Stores `entry` after the last record in use, growing the registry by 4096 free
    /// records when it is full; returns the index used.
    pub fn append(&mut self, entry: &PdsEntry) -> (r: usize)
        requires
            old(self)@.len() + GROWTH <= usize::MAX,
        ensures
            r <= old(self)@.len(),
            final(self)@[r as int] == *entry,
            forall|i: int| 0 <= i < r ==> final(self)@[i] == old(self)@[i],
            forall|i: int| r <= i < old(self)@.len() ==> !Self::in_use(#[trigger] old(self)@[i]),
            final(self)@.len() == if r == old(self)@.len() {
                old(self)@.len() + GROWTH
            } else {
                old(self)@.len() as int
            },
    {
        let logical = self.entry_count();
        if logical >= self.entries.len() {
            let mut k: usize = 0;
            while k < GROWTH
                invariant
                    k <= GROWTH,
                    self.entries@.len() == old(self)@.len() + k,
                    forall|i: int| 0 <= i < old(self)@.len() ==> self.entries@[i] == old(self)@[i],
                decreases GROWTH - k,
            {
                self.entries.push(PdsEntry {
                    url: [0u8; 200],
                    fail_count: 0,
                    pad: 0,
                    last_success: 0,
                    last_attempt: 0,
                    penalty_until: 0,
                    reserved: [0u8; 24],
                });
                k = k + 1;
            }
        }
        self.entries.set(logical, *entry);
        logical
    }
}

} // verus!
