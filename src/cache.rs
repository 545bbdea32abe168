//! The identity cache: an open-addressed, linear-probe table of fixed 99-byte slots
//! mapping the SHA-256 digest of an author to its key type and compressed public key.
use vstd::prelude::*;
use crate::car::bytes_eq;
use crate::codec::{fx_digest, fx_hash_digest, sha256, sha256_of};
use vstd::string::StringSliceAdditionalSpecFns;

verus! {

/// Bytes of one slot.
pub const SLOT_SIZE: usize = 99;

/// Slot state: never written.
pub const EMPTY: u8 = 0;

/// Slot state: holds a live key.
pub const LIVE: u8 = 1;

/// Slot state: its author was deleted; probing goes on past it.
pub const TOMBSTONE: u8 = 2;

/// One slot: author digest, key type, compressed public key, reserved bytes, state.
#[derive(Copy, Clone, Debug)]
pub struct CacheEntry {
    pub did_hash: [u8; 32],
    pub key_type: u8,
    pub pubkey: [u8; 33],
    pub reserved: [u8; 32],
    pub valid: u8,
}

impl CacheEntry {
    /// The compressed public key.
    pub fn pubkey_bytes(&self) -> (r: &[u8])
        ensures
            r@ == self.pubkey@,
    {
        self.pubkey.as_slice()
    }

    /// Whether the slot holds a live key.
    pub fn is_valid(&self) -> (r: bool)
        ensures
            r == (self.valid == 1),
    {
        self.valid == LIVE
    }

    /// The 99 bytes of the slot: digest, key type, key, reserved bytes, state.
    pub open spec fn spec_bytes(&self) -> Seq<u8> {
        self.did_hash@ + seq![self.key_type] + self.pubkey@ + self.reserved@ + seq![self.valid]
    }

    /// Lays the slot out in its 99 bytes.
    pub fn to_bytes(&self) -> (r: Vec<u8>)
        ensures
            r@ == self.spec_bytes(),
            r@.len() == 99,
    {
        let mut out: Vec<u8> = Vec::new();
        crate::cluster::append_bytes(&mut out, self.did_hash.as_slice());
        out.push(self.key_type);
        crate::cluster::append_bytes(&mut out, self.pubkey.as_slice());
        crate::cluster::append_bytes(&mut out, self.reserved.as_slice());
        out.push(self.valid);
        assert(out@ =~= self.spec_bytes());
        out
    }

    /// Reads a slot from its 99 bytes; `None` for any other length.
    pub fn from_bytes(b: &[u8]) -> (r: Option<Self>)
        ensures
            b@.len() == 99 <==> r is Some,
            r matches Some(e) ==> e.spec_bytes() == b@,
    {
        if b.len() != SLOT_SIZE {
            return None;
        }
        let mut did_hash = [0u8; 32];
        let mut pubkey = [0u8; 33];
        let mut reserved = [0u8; 32];
        let mut k: usize = 0;
        while k < 32
            invariant
                b@.len() == 99,
                k <= 32,
                forall|j: int| 0 <= j < k ==> did_hash@[j] == b@[j],
                forall|j: int| 0 <= j < k ==> reserved@[j] == b@[66 + j],
            decreases 32 - k,
        {
            did_hash[k] = b[k];
            reserved[k] = b[66 + k];
            k = k + 1;
        }
        let mut k: usize = 0;
        while k < 33
            invariant
                b@.len() == 99,
                k <= 33,
                forall|j: int| 0 <= j < k ==> pubkey@[j] == b@[33 + j],
            decreases 33 - k,
        {
            pubkey[k] = b[33 + k];
            k = k + 1;
        }
        let e = CacheEntry { did_hash, key_type: b[32], pubkey, reserved, valid: b[98] };
        assert(e.spec_bytes() =~= b@);
        Some(e)
    }

    /// A slot that was never written.
    pub fn empty() -> (r: Self)
        ensures
            r.valid == 0,
    {
        CacheEntry { did_hash: [0u8; 32], key_type: 0, pubkey: [0u8; 33], reserved: [0u8; 32], valid: EMPTY }
    }
}

/// Whether probing for `d` goes on past slot `e`: it is not empty and does not answer
/// for `d` (a tombstone never answers; any other state answers when the digest matches).
pub open spec fn passes(e: CacheEntry, d: Seq<u8>) -> bool {
    e.valid != 0 && !(e.valid != 2 && e.did_hash@ == d)
}

/// Whether `e` answers a lookup of `d`.
pub open spec fn answers(e: CacheEntry, d: Seq<u8>) -> bool {
    e.valid != 0 && e.valid != 2 && e.did_hash@ == d
}

/// The slot at probe step `k` from `home`.
pub open spec fn probe_at(slots: Seq<CacheEntry>, home: int, k: int) -> CacheEntry {
    slots[(home + k) % (slots.len() as int)]
}

/// The lookup of `d` from probe step `k`: the first slot that answers, unless an empty
/// slot or the end of the table comes first.
pub open spec fn lookup_from(slots: Seq<CacheEntry>, d: Seq<u8>, home: int, k: nat) -> Option<CacheEntry>
    decreases slots.len() - k,
{
    if k >= slots.len() {
        None
    } else {
        let e = probe_at(slots, home, k as int);
        if e.valid == 0 {
            None
        } else if answers(e, d) {
            Some(e)
        } else {
            lookup_from(slots, d, home, k + 1)
        }
    }
}

/// Where probing for digest `d` starts in a table of `n` slots.
pub open spec fn home_of(d: Seq<u8>, n: nat) -> int {
    (fx_digest(d) as nat % n) as int
}

/// The lookup of author digest `d`.
pub open spec fn lookup(slots: Seq<CacheEntry>, d: Seq<u8>) -> Option<CacheEntry> {
    if slots.len() == 0 {
        None
    } else {
        lookup_from(slots, d, home_of(d, slots.len()), 0)
    }
}

/// The digest under which author `did` is kept.
pub open spec fn digest_of(did: &str) -> Seq<u8> {
    sha256_of(did.spec_bytes())
}

/// The probe step at which slot `p` lies for a probe that starts at `home`.
pub open spec fn step_of(home: int, p: int, n: int) -> int {
    if p >= home { p - home } else { p + n - home }
}

/// The table invariant: non-empty slots hold distinct digests, and every slot between a
/// digest's home and its slot is non-empty.
pub open spec fn table_wf(slots: Seq<CacheEntry>) -> bool {
    &&& slots.len() > 0
    &&& forall|p: int, q: int| 0 <= p < slots.len() && 0 <= q < slots.len() && p != q && (#[trigger] slots[p]).valid != 0
        && (#[trigger] slots[q]).valid != 0 ==> slots[p].did_hash@ != slots[q].did_hash@
    &&& forall|p: int, k: int| 0 <= p < slots.len() && (#[trigger] slots[p]).valid != 0 && 0 <= k < step_of(
        home_of(slots[p].did_hash@, slots.len()),
        p,
        slots.len() as int,
    ) ==> (#[trigger] probe_at(slots, home_of(slots[p].did_hash@, slots.len()), k)).valid != 0
}

/// The slot at probe step `k` from `home` in a table of `n` slots.
fn probe_pos(home: usize, k: usize, n: usize) -> (r: usize)
    requires
        home < n,
        k < n,
    ensures
        r == (home + k) % (n as int),
        r < n,
{
    if k < n - home {
        proof {
            vstd::arithmetic::div_mod::lemma_small_mod((home + k) as nat, n as nat);
        }
        home + k
    } else {
        proof {
            let x = home + k;
            assert(x % (n as int) == x - n) by (nonlinear_arith)
                requires
                    n <= x < 2 * n,
                    n > 0,
            {
                vstd::arithmetic::div_mod::lemma_fundamental_div_mod(x, n as int);
                assert(x / (n as int) == 1) by {
                    vstd::arithmetic::div_mod::lemma_div_is_ordered(n as int, x, n as int);
                }
            }
        }
        k - (n - home)
    }
}

/// Probe steps and slot positions correspond one to one.
pub proof fn lemma_step(h: int, k: int, n: int)
    requires
        0 <= h < n,
        0 <= k < n,
    ensures
        0 <= (h + k) % n < n,
        step_of(h, (h + k) % n, n) == k,
{
    let x = h + k;
    if x < n {
        vstd::arithmetic::div_mod::lemma_small_mod(x as nat, n as nat);
    } else {
        assert(x % n == x - n) by (nonlinear_arith)
            requires
                n <= x < 2 * n,
                n > 0,
        {
            vstd::arithmetic::div_mod::lemma_fundamental_div_mod(x, n);
            vstd::arithmetic::div_mod::lemma_div_is_ordered(n, x, n);
        }
    }
}

/// A slot position is reached at its own probe step.
pub proof fn lemma_step_back(h: int, q: int, n: int)
    requires
        0 <= h < n,
        0 <= q < n,
    ensures
        0 <= step_of(h, q, n) < n,
        (h + step_of(h, q, n)) % n == q,
{
    let k = step_of(h, q, n);
    let x = h + k;
    if q >= h {
        vstd::arithmetic::div_mod::lemma_small_mod(q as nat, n as nat);
    } else {
        assert(x % n == x - n) by (nonlinear_arith)
            requires
                n <= x < 2 * n,
                n > 0,
        {
            vstd::arithmetic::div_mod::lemma_fundamental_div_mod(x, n);
            vstd::arithmetic::div_mod::lemma_div_is_ordered(n, x, n);
        }
    }
}

/// The first probe step from `k` at which the slot is empty or holds digest `d`.
pub open spec fn slot_from(slots: Seq<CacheEntry>, d: Seq<u8>, home: int, k: nat) -> Option<nat>
    decreases slots.len() - k,
{
    if k >= slots.len() {
        None
    } else {
        let e = probe_at(slots, home, k as int);
        if e.valid == 0 || e.did_hash@ == d {
            Some(k)
        } else {
            slot_from(slots, d, home, k + 1)
        }
    }
}

/// The probe step of the slot where digest `d` is written.
pub open spec fn slot_for(slots: Seq<CacheEntry>, d: Seq<u8>) -> Option<nat> {
    if slots.len() == 0 {
        None
    } else {
        slot_from(slots, d, home_of(d, slots.len()), 0)
    }
}

/// What a write of digest `d` puts in a slot: a live key, or a tombstone with no key.
pub open spec fn written(e: CacheEntry, d: Seq<u8>, key_type: Option<u8>, pubkey: Option<Seq<u8>>) -> bool {
    &&& e.did_hash@ == d
    &&& e.reserved@ == Seq::new(32, |i: int| 0u8)
    &&& match (key_type, pubkey) {
        (Some(kt), Some(pk)) => e.valid == 1 && e.key_type == kt && e.pubkey@ == pk,
        _ => e.valid == 2 && e.key_type == 0 && e.pubkey@ == Seq::new(33, |i: int| 0u8),
    }
}

proof fn lemma_slot_from_props(slots: Seq<CacheEntry>, d: Seq<u8>, home: int, k: nat)
    requires
        slots.len() > 0,
    ensures
        slot_from(slots, d, home, k) matches Some(j) ==> k <= j < slots.len() && (probe_at(slots, home, j as int).valid
            == 0 || probe_at(slots, home, j as int).did_hash@ == d) && forall|i: int| k <= i < j ==> (#[trigger] probe_at(
            slots,
            home,
            i,
        )).valid != 0 && probe_at(slots, home, i).did_hash@ != d,
        slot_from(slots, d, home, k) is None ==> forall|i: int| k <= i < slots.len() ==> (#[trigger] probe_at(slots, home, i)).valid
            != 0 && probe_at(slots, home, i).did_hash@ != d,
    decreases slots.len() - k,
{
    if k < slots.len() {
        lemma_slot_from_props(slots, d, home, k + 1);
    }
}

/// The lookup from step `k` sees the same slots in two tables that agree on every slot
/// it can reach, or that only differ where both slots let the probe go on.
proof fn lemma_lookup_same(s1: Seq<CacheEntry>, s2: Seq<CacheEntry>, d: Seq<u8>, home: int, k: nat, p: int)
    requires
        s1.len() == s2.len(),
        s1.len() > 0,
        forall|i: int| 0 <= i < s1.len() && i != p ==> s1[i] == s2[i],
        0 <= p < s1.len() ==> passes(s1[p], d) && passes(s2[p], d),
    ensures
        lookup_from(s1, d, home, k) == lookup_from(s2, d, home, k),
    decreases s1.len() - k,
{
    if k < s1.len() {
        lemma_lookup_same(s1, s2, d, home, k + 1, p);
    }
}

/// A lookup that passes the first `j` steps equals the lookup from step `j`.
proof fn lemma_lookup_skip(s: Seq<CacheEntry>, d: Seq<u8>, home: int, k: nat, j: nat)
    requires
        k <= j <= s.len(),
        forall|i: int| k <= i < j ==> passes(#[trigger] probe_at(s, home, i), d),
    ensures
        lookup_from(s, d, home, k) == lookup_from(s, d, home, j),
    decreases j - k,
{
    if k < j {
        lemma_lookup_skip(s, d, home, k + 1, j);
    }
}

/// A lookup finds nothing when no slot from step `k` on answers for `d`.
proof fn lemma_lookup_none(s: Seq<CacheEntry>, d: Seq<u8>, home: int, k: nat)
    requires
        forall|i: int| k <= i < s.len() ==> !answers(#[trigger] probe_at(s, home, i), d),
    ensures
        lookup_from(s, d, home, k) is None,
    decreases s.len() - k,
{
    if k < s.len() {
        lemma_lookup_none(s, d, home, k + 1);
    }
}

/// Law of the cache: after digest `d` is written at its slot, a lookup of `d` returns
/// that slot if it is live and nothing if it is a tombstone.
pub proof fn lemma_lookup_after_write(slots: Seq<CacheEntry>, d: Seq<u8>, e: CacheEntry)
    requires
        table_wf(slots),
        slot_for(slots, d) is Some,
        e.did_hash@ == d,
        e.valid == 1 || e.valid == 2,
    ensures
        ({
            let n = slots.len() as int;
            let h = home_of(d, slots.len());
            let p = (h + slot_for(slots, d).unwrap()) % n;
            let s2 = slots.update(p, e);
            &&& e.valid == 1 ==> lookup(s2, d) == Some(e)
            &&& e.valid == 2 ==> lookup(s2, d) is None
        }),
{
    let n = slots.len() as int;
    let h = home_of(d, slots.len());
    let j = slot_for(slots, d).unwrap();
    let p = (h + j) % n;
    let s2 = slots.update(p, e);
    lemma_slot_from_props(slots, d, h, 0);
    lemma_step(h, j as int, n);
    assert forall|i: int| 0 <= i < j implies passes(#[trigger] probe_at(s2, h, i), d) by {
        lemma_step(h, i, n);
        assert((h + i) % n != p) by {
            lemma_step(h, i, n);
        }
        assert(probe_at(s2, h, i) == probe_at(slots, h, i));
    }
    lemma_lookup_skip(s2, d, h, 0, j);
    assert(probe_at(s2, h, j as int) == e);
    if e.valid == 2 {
        assert forall|i: int| j <= i < n implies !answers(#[trigger] probe_at(s2, h, i), d) by {
            lemma_step(h, i, n);
            let q = (h + i) % n;
            if q != p {
                assert(probe_at(s2, h, i) == slots[q]);
                if answers(slots[q], d) {
                    if slots[p].valid != 0 {
                        assert(slots[p].did_hash@ == d);
                    } else {
                        let hq = home_of(slots[q].did_hash@, slots.len());
                        assert(hq == h);
                        lemma_step_back(h, q, n);
                        assert(step_of(h, q, n) == i);
                        assert(probe_at(slots, h, j as int).valid != 0);
                    }
                }
            }
        }
        lemma_lookup_none(s2, d, h, j);
    }
}

/// Writing digest `d` at its slot keeps the table invariant.
pub proof fn lemma_write_keeps_wf(slots: Seq<CacheEntry>, d: Seq<u8>, e: CacheEntry)
    requires
        table_wf(slots),
        slot_for(slots, d) is Some,
        e.did_hash@ == d,
        e.valid != 0,
    ensures
        table_wf(slots.update((home_of(d, slots.len()) + slot_for(slots, d).unwrap()) % (slots.len() as int), e)),
{
    let n = slots.len() as int;
    let h = home_of(d, slots.len());
    let j = slot_for(slots, d).unwrap();
    let p = (h + j) % n;
    let s2 = slots.update(p, e);
    lemma_slot_from_props(slots, d, h, 0);
    lemma_step(h, j as int, n);
    assert forall|a: int, b: int| 0 <= a < n && 0 <= b < n && a != b && (#[trigger] s2[a]).valid != 0
        && (#[trigger] s2[b]).valid != 0 implies s2[a].did_hash@ != s2[b].did_hash@ by {
        if a == p || b == p {
            let q = if a == p { b } else { a };
            assert(s2[q] == slots[q]);
            if slots[q].did_hash@ == d {
                if slots[p].valid != 0 {
                    assert(slots[p].did_hash@ == d);
                } else {
                    lemma_step_back(h, q, n);
                    let sq = step_of(h, q, n);
                    assert(home_of(slots[q].did_hash@, slots.len()) == h);
                    if sq < j {
                        assert(probe_at(slots, h, sq).did_hash@ != d);
                    } else if sq > j {
                        assert(probe_at(slots, h, j as int).valid != 0);
                    }
                }
            }
        }
    }
    assert forall|q: int, k: int| 0 <= q < n && (#[trigger] s2[q]).valid != 0 && 0 <= k < step_of(
        home_of(s2[q].did_hash@, s2.len()),
        q,
        n,
    ) implies (#[trigger] probe_at(s2, home_of(s2[q].did_hash@, s2.len()), k)).valid != 0 by {
        let hq = home_of(s2[q].did_hash@, s2.len());
        lemma_step_back(hq, q, n);
        lemma_step(hq, k, n);
        let pos = (hq + k) % n;
        if pos != p {
            assert(probe_at(s2, hq, k) == slots[pos]);
            if q == p {
                assert(hq == h);
                assert(step_of(h, q, n) == j) by {
                    lemma_step(h, j as int, n);
                }
                assert(probe_at(slots, h, k).valid != 0);
            } else {
                assert(s2[q] == slots[q]);
                assert(probe_at(slots, hq, k).valid != 0);
            }
        }
    }
}

/// The slot of digest `d`, once written, is where a further write of `d` goes.
proof fn lemma_slot_stays(slots: Seq<CacheEntry>, d: Seq<u8>, e: CacheEntry)
    requires
        table_wf(slots),
        slot_for(slots, d) is Some,
        e.did_hash@ == d,
        e.valid != 0,
    ensures
        slot_for(slots.update((home_of(d, slots.len()) + slot_for(slots, d).unwrap()) % (slots.len() as int), e), d)
            == slot_for(slots, d),
{
    let n = slots.len() as int;
    let h = home_of(d, slots.len());
    let j = slot_for(slots, d).unwrap();
    let p = (h + j) % n;
    let s2 = slots.update(p, e);
    lemma_slot_from_props(slots, d, h, 0);
    lemma_slot_from_props(s2, d, h, 0);
    lemma_step(h, j as int, n);
    assert forall|i: int| 0 <= i < j implies #[trigger] probe_at(s2, h, i) == probe_at(slots, h, i) by {
        lemma_step(h, i, n);
    }
    lemma_slot_from_prefix(slots, s2, d, h, 0, j);
}

proof fn lemma_slot_from_prefix(s1: Seq<CacheEntry>, s2: Seq<CacheEntry>, d: Seq<u8>, h: int, k: nat, j: nat)
    requires
        s1.len() == s2.len(),
        k <= j < s1.len(),
        forall|i: int| k <= i < j ==> #[trigger] probe_at(s2, h, i) == probe_at(s1, h, i),
        forall|i: int| k <= i < j ==> (#[trigger] probe_at(s1, h, i)).valid != 0 && probe_at(s1, h, i).did_hash@ != d,
        probe_at(s2, h, j as int).did_hash@ == d,
        slot_from(s1, d, h, k) == Some(j),
    ensures
        slot_from(s2, d, h, k) == Some(j),
    decreases j - k,
{
    if k < j {
        lemma_slot_from_prefix(s1, s2, d, h, k + 1, j);
    }
}

/// Law of the identity cache: writing a key for a digest and looking it up returns that
/// key; writing another key for it returns the new key; writing a tombstone makes the
/// lookup find nothing.
pub proof fn lemma_cache_idempotence(slots: Seq<CacheEntry>, d: Seq<u8>, e1: CacheEntry, e2: CacheEntry, t: CacheEntry)
    requires
        table_wf(slots),
        slot_for(slots, d) is Some,
        e1.did_hash@ == d && e1.valid == 1,
        e2.did_hash@ == d && e2.valid == 1,
        t.did_hash@ == d && t.valid == 2,
    ensures
        ({
            let p = (home_of(d, slots.len()) + slot_for(slots, d).unwrap()) % (slots.len() as int);
            &&& lookup(slots.update(p, e1), d) == Some(e1)
            &&& lookup(slots.update(p, e1).update(p, e2), d) == Some(e2)
            &&& lookup(slots.update(p, e1).update(p, e2).update(p, t), d) is None
        }),
{
    let p = (home_of(d, slots.len()) + slot_for(slots, d).unwrap()) % (slots.len() as int);
    lemma_lookup_after_write(slots, d, e1);
    let s1 = slots.update(p, e1);
    lemma_write_keeps_wf(slots, d, e1);
    lemma_slot_stays(slots, d, e1);
    lemma_lookup_after_write(s1, d, e2);
    let s2 = s1.update(p, e2);
    lemma_write_keeps_wf(s1, d, e2);
    lemma_slot_stays(s1, d, e2);
    lemma_lookup_after_write(s2, d, t);
}

/// Law of probe chains: turning the slot of one digest into a tombstone leaves the
/// lookup of every other digest as it was.
pub proof fn lemma_tombstone_keeps_others(slots: Seq<CacheEntry>, p: int, e: CacheEntry, d2: Seq<u8>)
    requires
        0 <= p < slots.len(),
        slots[p].valid != 0,
        slots[p].did_hash@ != d2,
        e.valid == 2,
    ensures
        lookup(slots.update(p, e), d2) == lookup(slots, d2),
{
    let s2 = slots.update(p, e);
    lemma_lookup_same(slots, s2, d2, home_of(d2, slots.len()), 0, p);
}

/// Law of the cache: a digest that no slot holds alive is not found.
pub proof fn lemma_never_inserted(slots: Seq<CacheEntry>, d: Seq<u8>)
    requires
        slots.len() > 0,
        forall|p: int| 0 <= p < slots.len() ==> !answers(#[trigger] slots[p], d),
    ensures
        lookup(slots, d) is None,
{
    let h = home_of(d, slots.len());
    assert forall|i: int| 0 <= i < slots.len() implies !answers(#[trigger] probe_at(slots, h, i), d) by {
        lemma_step(h, i, slots.len() as int);
    }
    lemma_lookup_none(slots, d, h, 0);
}

/// The bytes of an optional key.
pub open spec fn opt_key(pubkey: Option<&[u8; 33]>) -> Option<Seq<u8>> {
    match pubkey {
        None => None,
        Some(pk) => Some(pk@),
    }
}

/// Whether `t` is slot `e` turned into a tombstone: its digest kept, its body zeroed,
/// its state 2.
pub open spec fn is_tombstone_of(t: CacheEntry, e: CacheEntry) -> bool {
    &&& t.did_hash == e.did_hash
    &&& t.key_type == 0
    &&& t.pubkey@ == Seq::new(33, |i: int| 0u8)
    &&& t.reserved@ == Seq::new(32, |i: int| 0u8)
    &&& t.valid == 2
}

/// The cache.
pub struct MmapDidCache {
    slots: Vec<CacheEntry>,
}

impl MmapDidCache {
    /// The slots.
    pub closed spec fn view(&self) -> Seq<CacheEntry> {
        self.slots@
    }

    /// An empty cache of `num_slots` slots (at least one).
    pub fn new(num_slots: usize) -> (r: Self)
        ensures
            r@.len() == if num_slots == 0 { 1 } else { num_slots as int },
            table_wf(r@),
            forall|i: int| 0 <= i < r@.len() ==> (#[trigger] r@[i]).valid == 0,
    {
        let n = if num_slots == 0 { 1 } else { num_slots };
        let mut slots: Vec<CacheEntry> = Vec::new();
        let mut i: usize = 0;
        while i < n
            invariant
                i <= n,
                slots@.len() == i,
                forall|j: int| 0 <= j < i ==> (#[trigger] slots@[j]).valid == 0,
            decreases n - i,
        {
            slots.push(CacheEntry::empty());
            i = i + 1;
        }
        MmapDidCache { slots }
    }

    /// A cache over existing slots (at least one).
    pub fn from_entries(slots: Vec<CacheEntry>) -> (r: Option<Self>)
        ensures
            slots@.len() == 0 <==> r is None,
            r matches Some(c) ==> c@ == slots@,
    {
        if slots.len() == 0 {
            return None;
        }
        Some(MmapDidCache { slots })
    }

    /// The slots, for storing.
    pub fn entries(&self) -> (r: &Vec<CacheEntry>)
        ensures
            r@ == self@,
    {
        &self.slots
    }

    /// Looks author `did` up: the public key and key type of the slot that answers for
    /// its digest, probing from its home past tombstones and other digests.
    pub fn get(&self, did: &str) -> (r: Option<([u8; 33], u8)>)
        ensures
            match lookup(self@, digest_of(did)) {
                None => r is None,
                Some(e) => r == Some((e.pubkey, e.key_type)),
            },
    {
        let d = sha256(did.as_bytes());
        match self.find(&d) {
            None => None,
            Some(p) => Some((self.slots[p].pubkey, self.slots[p].key_type)),
        }
    }

    /// Writes author `did`: a live key when both `key_type` and `pubkey` are given, else a
    /// tombstone with the key zeroed. The slot is the first on the author's probe path
    /// that is empty or already holds its digest; returns false if there is none.
    pub fn atomic_update_or_tombstone(&mut self, did: &str, key_type: Option<u8>, pubkey: Option<&[u8; 33]>) -> (r: bool)
        ensures
            r == (slot_for(old(self)@, digest_of(did)) is Some),
            !r ==> final(self)@ == old(self)@,
            r ==> exists|e: CacheEntry| #![trigger written(e, digest_of(did), key_type, opt_key(pubkey))] {
                &&& written(e, digest_of(did), key_type, opt_key(pubkey))
                &&& final(self)@ == old(self)@.update(
                    (home_of(digest_of(did), old(self)@.len()) + slot_for(old(self)@, digest_of(did)).unwrap()) % (old(self)@.len() as int),
                    e,
                )
            },
            table_wf(old(self)@) ==> table_wf(final(self)@),
    {
        let d = sha256(did.as_bytes());
        let n = self.slots.len();
        if n == 0 {
            return false;
        }
        let home = (fx_hash_digest(&d) % (n as u64)) as usize;
        let mut k: usize = 0;
        while k < n
            invariant
                n == self.slots@.len(),
                n > 0,
                k <= n,
                self@ == old(self)@,
                home == home_of(d@, n as nat),
                d@ == digest_of(did),
                slot_for(self@, d@) == slot_from(self@, d@, home as int, k as nat),
            decreases n - k,
        {
            let pos = probe_pos(home, k, n);
            let e = &self.slots[pos];
            if e.valid == EMPTY || bytes_eq(e.did_hash.as_slice(), d.as_slice()) {
                let entry = match (key_type, pubkey) {
                    (Some(kt), Some(pk)) => CacheEntry { did_hash: d, key_type: kt, pubkey: *pk, reserved: [0u8; 32], valid: LIVE },
                    _ => CacheEntry { did_hash: d, key_type: 0, pubkey: [0u8; 33], reserved: [0u8; 32], valid: TOMBSTONE },
                };
                proof {
                    assert(entry.reserved@ =~= Seq::new(32, |i: int| 0u8));
                    assert(entry.valid == 2 ==> entry.pubkey@ =~= Seq::new(33, |i: int| 0u8));
                    if table_wf(self@) {
                        lemma_write_keeps_wf(self@, d@, entry);
                    }
                    assert(slot_from(self@, d@, home as int, k as nat) == Some(k as nat));
                    assert(written(entry, d@, key_type, opt_key(pubkey)));
                }
                self.slots.set(pos, entry);
                return true;
            }
            k = k + 1;
        }
        false
    }

    /// Marks the live slot of author `did` a tombstone, keeping its digest so that probe
    /// paths through it stay whole. Every slot is looked at, from the author's home on.
    /// Returns false if no non-empty slot holds the author's digest.
    pub fn remove_did(&mut self, did: &str) -> (r: bool)
        ensures
            !r ==> final(self)@ == old(self)@,
            !r ==> forall|p: int| 0 <= p < old(self)@.len() ==> !((#[trigger] old(self)@[p]).valid != 0 && old(self)@[p].did_hash@ == digest_of(did)),
            r ==> exists|p: int| 0 <= p < old(self)@.len() && (#[trigger] old(self)@[p]).valid != 0 && old(self)@[p].did_hash@ == digest_of(did)
                && final(self)@ == old(self)@.update(p, final(self)@[p]) && is_tombstone_of(final(self)@[p], old(self)@[p]),
            table_wf(old(self)@) ==> table_wf(final(self)@),
    {
        let d = sha256(did.as_bytes());
        let n = self.slots.len();
        if n == 0 {
            return false;
        }
        let home = (fx_hash_digest(&d) % (n as u64)) as usize;
        let mut k: usize = 0;
        while k < n
            invariant
                n == self.slots@.len(),
                n > 0,
                k <= n,
                self@ == old(self)@,
                home < n,
                d@ == digest_of(did),
                forall|i: int| 0 <= i < k ==> !((#[trigger] probe_at(self@, home as int, i)).valid != 0 && probe_at(self@, home as int, i).did_hash@ == d@),
            decreases n - k,
        {
            let pos = probe_pos(home, k, n);
            let e = &self.slots[pos];
            if e.valid != EMPTY && bytes_eq(e.did_hash.as_slice(), d.as_slice()) {
                let entry = CacheEntry { did_hash: e.did_hash, key_type: 0, pubkey: [0u8; 33], reserved: [0u8; 32], valid: TOMBSTONE };
                assert(is_tombstone_of(entry, *e)) by {
                    assert(entry.pubkey@ =~= Seq::new(33, |i: int| 0u8));
                    assert(entry.reserved@ =~= Seq::new(32, |i: int| 0u8));
                }
                proof {
                    if table_wf(self@) {
                        let s2 = self@.update(pos as int, entry);
                        assert forall|a: int, b: int| 0 <= a < n && 0 <= b < n && a != b && (#[trigger] s2[a]).valid != 0
                            && (#[trigger] s2[b]).valid != 0 implies s2[a].did_hash@ != s2[b].did_hash@ by {
                            assert(self@[a].valid != 0 && self@[b].valid != 0);
                        }
                        assert forall|q: int, kk: int| 0 <= q < n && (#[trigger] s2[q]).valid != 0 && 0 <= kk < step_of(
                            home_of(s2[q].did_hash@, s2.len()),
                            q,
                            n as int,
                        ) implies (#[trigger] probe_at(s2, home_of(s2[q].did_hash@, s2.len()), kk)).valid != 0 by {
                            let hq = home_of(s2[q].did_hash@, s2.len());
                            lemma_step(hq, kk, n as int);
                            assert(s2[q].did_hash@ == self@[q].did_hash@);
                            assert(self@[q].valid != 0);
                            assert(probe_at(self@, hq, kk).valid != 0);
                        }
                    }
                }
                self.slots.set(pos, entry);
                return true;
            }
            k = k + 1;
        }
        proof {
            assert forall|p: int| 0 <= p < n implies !((#[trigger] self@[p]).valid != 0 && self@[p].did_hash@ == d@) by {
                lemma_step_back(home as int, p, n as int);
                let i = step_of(home as int, p, n as int);
                assert(probe_at(self@, home as int, i) == self@[p]);
            }
        }
        false
    }

    /// Index of the slot that answers for digest `d`.
    fn find(&self, d: &[u8; 32]) -> (r: Option<usize>)
        ensures
            match lookup(self@, d@) {
                None => r is None,
                Some(e) => r matches Some(p) && p < self@.len() && self@[p as int] == e,
            },
    {
        let n = self.slots.len();
        if n == 0 {
            return None;
        }
        let home = (fx_hash_digest(d) % (n as u64)) as usize;
        let mut k: usize = 0;
        while k < n
            invariant
                n == self.slots@.len(),
                n > 0,
                k <= n,
                home == home_of(d@, n as nat),
                lookup(self@, d@) == lookup_from(self@, d@, home as int, k as nat),
            decreases n - k,
        {
            let pos = probe_pos(home, k, n);
            let e = &self.slots[pos];
            if e.valid == EMPTY {
                return None;
            }
            if e.valid != TOMBSTONE && bytes_eq(e.did_hash.as_slice(), d.as_slice()) {
                return Some(pos);
            }
            k = k + 1;
        }
        None
    }
}

} // verus!
