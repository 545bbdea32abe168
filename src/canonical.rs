//! The signed form of a commit block: its top-level map without the `sig` entry, keys
//! in canonical order (shorter first, then bytewise), each value as it was written.
use vstd::prelude::*;
use crate::cbor::{parse_cbor_len, skip_cbor_value, spec_head, spec_skip, major_of};
use crate::cluster::append_bytes;
use crate::codec::{sha256, sha256_of};
use crate::writer::{bytes_lt, less_bytes};

verus! {

/// One top-level entry, as positions in the block: where its key head starts, where
/// the key bytes start and end, and where its value ends.
pub type EntryPos = (int, int, int, int);

/// The bytes of a key that spells `sig`.
pub open spec fn is_sig(k: Seq<u8>) -> bool {
    k == seq![0x73u8, 0x69u8, 0x67u8]
}

/// Canonical key order: shorter keys first, keys of one length bytewise.
pub open spec fn key_before(a: Seq<u8>, b: Seq<u8>) -> bool {
    a.len() < b.len() || (a.len() == b.len() && bytes_lt(a, b))
}

/// The key of an entry at `i`: its bytes, and the index just past them.
pub open spec fn spec_key(raw: Seq<u8>, i: int) -> Option<(int, int)> {
    match spec_head(raw, i) {
        None => None,
        Some((len, next)) => if next + len > raw.len() {
            None
        } else {
            Some((next, next + len))
        },
    }
}

/// The entries of a definite map body: `n` entries from `i`, `sig` left out.
pub open spec fn scan_definite(raw: Seq<u8>, i: int, n: nat) -> Option<Seq<EntryPos>>
    decreases n,
{
    if n == 0 {
        Some(Seq::empty())
    } else {
        match spec_key(raw, i) {
            None => None,
            Some((k0, k1)) => match spec_skip(raw, k1) {
                None => None,
                Some(v1) => match scan_definite(raw, v1, (n - 1) as nat) {
                    None => None,
                    Some(rest) => if is_sig(raw.subrange(k0, k1)) {
                        Some(rest)
                    } else {
                        Some(seq![(i, k0, k1, v1)] + rest)
                    },
                },
            },
        }
    }
}

/// The entries of an indefinite map body from `i`, up to a break byte or the end.
pub open spec fn scan_indefinite(raw: Seq<u8>, i: int) -> Option<Seq<EntryPos>>
    decreases raw.len() - i,
{
    if i < 0 || i >= raw.len() || raw[i] == 0xff {
        Some(Seq::empty())
    } else {
        match spec_key(raw, i) {
            None => None,
            Some((k0, k1)) => match spec_skip(raw, k1) {
                None => None,
                Some(v1) => if v1 <= i || v1 > raw.len() {
                    None
                } else {
                    match scan_indefinite(raw, v1) {
                        None => None,
                        Some(rest) => if is_sig(raw.subrange(k0, k1)) {
                            Some(rest)
                        } else {
                            Some(seq![(i, k0, k1, v1)] + rest)
                        },
                    }
                },
            },
        }
    }
}

/// Index past the leading tag heads, if they can be read.
pub open spec fn past_tags(raw: Seq<u8>, i: int) -> Option<int>
    decreases raw.len() - i,
{
    if i < 0 || i >= raw.len() || major_of(raw[i]) != 6 {
        Some(i)
    } else {
        match spec_head(raw, i) {
            None => None,
            Some((_v, next)) => if next <= i {
                None
            } else {
                past_tags(raw, next)
            },
        }
    }
}

/// The top-level entries of a commit block other than `sig`, in the order written.
pub open spec fn commit_entries(raw: Seq<u8>) -> Option<Seq<EntryPos>> {
    match past_tags(raw, 0) {
        None => None,
        Some(i) => if i >= raw.len() {
            None
        } else if raw[i] == 0xbf {
            scan_indefinite(raw, i + 1)
        } else {
            match spec_head(raw, i) {
                None => None,
                Some((n, next)) => scan_definite(raw, next, n),
            }
        },
    }
}

/// The key bytes of an entry.
pub open spec fn key_of(raw: Seq<u8>, e: EntryPos) -> Seq<u8> {
    raw.subrange(e.1, e.2)
}

/// The bytes of an entry as written: key head, key, value.
pub open spec fn entry_bytes(raw: Seq<u8>, e: EntryPos) -> Seq<u8> {
    raw.subrange(e.0, e.3)
}

/// The entries' bytes laid end to end.
pub open spec fn entries_bytes(raw: Seq<u8>, es: Seq<EntryPos>) -> Seq<u8>
    decreases es.len(),
{
    if es.len() == 0 {
        Seq::empty()
    } else {
        entries_bytes(raw, es.drop_last()) + entry_bytes(raw, es.last())
    }
}

/// The map head for `n` entries, in its shortest form.
pub open spec fn map_header(n: nat) -> Seq<u8> {
    if n < 24 {
        seq![(0xa0 + n) as u8]
    } else if n < 256 {
        seq![0xb8u8, n as u8]
    } else if n < 65536 {
        seq![0xb9u8, (n / 256) as u8, (n % 256) as u8]
    } else if n < 0x1_0000_0000 {
        seq![0xbau8, (n / 0x100_0000) as u8, ((n / 0x1_0000) % 256) as u8, ((n / 256) % 256) as u8, (n % 256) as u8]
    } else {
        seq![
            0xbbu8,
            ((n / 0x100_0000_0000_0000) % 256) as u8,
            ((n / 0x1_0000_0000_0000) % 256) as u8,
            ((n / 0x100_0000_0000) % 256) as u8,
            ((n / 0x1_0000_0000) % 256) as u8,
            ((n / 0x100_0000) % 256) as u8,
            ((n / 0x1_0000) % 256) as u8,
            ((n / 256) % 256) as u8,
            (n % 256) as u8,
        ]
    }
}

/// Where entry `e` goes among the sorted entries `s`, looking from `j`: before the first
/// entry whose key it precedes, else at the end (so equal keys keep their order).
pub open spec fn ins_pos(raw: Seq<u8>, s: Seq<EntryPos>, e: EntryPos, j: int) -> int
    decreases s.len() - j,
{
    if j < 0 || j >= s.len() {
        s.len() as int
    } else if key_before(key_of(raw, e), key_of(raw, s[j])) {
        j
    } else {
        ins_pos(raw, s, e, j + 1)
    }
}

/// The first `i` entries of `es` sorted by insertion, one after the other.
pub open spec fn sorted_prefix(raw: Seq<u8>, es: Seq<EntryPos>, i: int) -> Seq<EntryPos>
    decreases i,
{
    if i <= 0 {
        Seq::empty()
    } else {
        let s = sorted_prefix(raw, es, i - 1);
        s.insert(ins_pos(raw, s, es[i - 1], 0), es[i - 1])
    }
}

/// The canonical form of a commit block: the map head, then its entries other than
/// `sig`, each as written, sorted into canonical key order (equal keys in the order
/// written).
pub open spec fn canonical_of(raw: Seq<u8>) -> Option<Seq<u8>> {
    match commit_entries(raw) {
        None => None,
        Some(es) => {
            let so = sorted_prefix(raw, es, es.len() as int);
            Some(map_header(so.len()) + entries_bytes(raw, so))
        },
    }
}

/// Whether `es` is in canonical key order: no key comes before the key preceding it.
pub open spec fn keys_sorted(raw: Seq<u8>, es: Seq<EntryPos>) -> bool {
    forall|b: int| 0 < b < es.len() ==> !key_before(key_of(raw, #[trigger] es[b]), key_of(raw, es[b - 1]))
}

/// Whether `es` holds exactly the entries of `orig`, as many of each.
pub open spec fn same_entries(es: Seq<EntryPos>, orig: Seq<EntryPos>) -> bool {
    es.to_multiset() == orig.to_multiset()
}

/// Whether `out` is a canonical form of the commit block `raw`: the map head, then the
/// entries other than `sig`, each as written, in canonical key order.
pub open spec fn is_canonical(raw: Seq<u8>, out: Seq<u8>) -> bool {
    exists|es: Seq<EntryPos>|
        #![trigger keys_sorted(raw, es)]
        commit_entries(raw) matches Some(orig) && same_entries(es, orig) && keys_sorted(raw, es) && out == map_header(es.len())
            + entries_bytes(raw, es)
}

/// Canonical key order never holds both ways.
pub proof fn lemma_bytes_lt_asym(a: Seq<u8>, b: Seq<u8>)
    ensures
        bytes_lt(a, b) ==> !bytes_lt(b, a),
    decreases a.len(),
{
    if a.len() > 0 && b.len() > 0 && a[0] == b[0] {
        lemma_bytes_lt_asym(a.subrange(1, a.len() as int), b.subrange(1, b.len() as int));
    }
}

/// Law of canonical order, on the keys `a`, `bb`, `c`: the one-byte keys come first,
/// bytewise, then the two-byte key; `sig` is left out of the signed form.
pub proof fn lemma_canonical_key_order()
    ensures
        key_before(seq![0x61u8], seq![0x63u8]),
        key_before(seq![0x63u8], seq![0x62u8, 0x62u8]),
        key_before(seq![0x61u8], seq![0x62u8, 0x62u8]),
        is_sig(seq![0x73u8, 0x69u8, 0x67u8]),
        !is_sig(seq![0x61u8]) && !is_sig(seq![0x63u8]) && !is_sig(seq![0x62u8, 0x62u8]),
{
    reveal_with_fuel(bytes_lt, 2);
}

/// Whether key `k` spells `sig`.
fn key_is_sig(k: &[u8]) -> (r: bool)
    ensures
        r == is_sig(k@),
{
    let r = k.len() == 3 && k[0] == 0x73 && k[1] == 0x69 && k[2] == 0x67;
    proof {
        if r {
            assert(k@ =~= seq![0x73u8, 0x69u8, 0x67u8]);
        }
    }
    r
}

/// The key of the entry at `i`: where its bytes start and end.
fn key_at(raw: &[u8], i: usize) -> (r: Option<(usize, usize)>)
    ensures
        match r {
            None => spec_key(raw@, i as int) is None,
            Some((a, b)) => spec_key(raw@, i as int) == Some((a as int, b as int)) && i < a <= b <= raw@.len(),
        },
{
    let (len, next) = match parse_cbor_len(raw, i) {
        None => return None,
        Some(p) => p,
    };
    if next > raw.len() || len > raw.len() - next {
        return None;
    }
    Some((next, next + len))
}

/// The entries of a commit block other than `sig`, in the order written.
fn collect_entries(raw: &[u8]) -> (r: Option<Vec<(usize, usize, usize, usize)>>)
    ensures
        match r {
            None => commit_entries(raw@) is None,
            Some(v) => commit_entries(raw@) == Some(pos_views(v@)) && forall|j: int| 0 <= j < v@.len() ==> {
                let e = #[trigger] v@[j];
                e.0 <= e.1 <= e.2 <= e.3 <= raw@.len()
            },
        },
{
    let len = raw.len();
    let mut i: usize = 0;
    while i < len && raw[i] / 32 == 6
        invariant
            len == raw@.len(),
            i <= len,
            past_tags(raw@, 0) == past_tags(raw@, i as int),
        decreases len - i,
    {
        let (_, next) = match parse_cbor_len(raw, i) {
            None => return None,
            Some(p) => p,
        };
        if next <= i {
            return None;
        }
        i = next;
    }
    if i >= len {
        return None;
    }
    let mut out: Vec<(usize, usize, usize, usize)> = Vec::new();
    if raw[i] == 0xbf {
        let mut idx = i + 1;
        while idx < len && raw[idx] != 0xff
            invariant
                len == raw@.len(),
                idx <= len,
                commit_entries(raw@) == prepend(pos_views(out@), scan_indefinite(raw@, idx as int)),
                forall|j: int| 0 <= j < out@.len() ==> {
                    let e = #[trigger] out@[j];
                    e.0 <= e.1 <= e.2 <= e.3 <= raw@.len()
                },
            decreases len - idx,
        {
            let (k0, k1) = match key_at(raw, idx) {
                None => return None,
                Some(p) => p,
            };
            let v1 = match skip_cbor_value(raw, k1) {
                None => return None,
                Some(v) => v,
            };
            if v1 <= idx || v1 > len {
                return None;
            }
            let ghost before = pos_views(out@);
            if !key_is_sig(vstd::slice::slice_subrange(raw, k0, k1)) {
                out.push((idx, k0, k1, v1));
                proof {
                    assert(pos_views(out@) =~= before.push((idx as int, k0 as int, k1 as int, v1 as int)));
                    lemma_prepend_push(before, (idx as int, k0 as int, k1 as int, v1 as int), scan_indefinite(raw@, v1 as int));
                }
            }
            idx = v1;
        }
        proof {
            assert(scan_indefinite(raw@, idx as int) == Some(Seq::<EntryPos>::empty()));
            assert(pos_views(out@) + Seq::<EntryPos>::empty() =~= pos_views(out@));
        }
    } else {
        let (n, next) = match parse_cbor_len(raw, i) {
            None => return None,
            Some(p) => p,
        };
        let mut idx = next;
        let mut k: usize = 0;
        while k < n
            invariant
                len == raw@.len(),
                k <= n,
                commit_entries(raw@) == prepend(pos_views(out@), scan_definite(raw@, idx as int, (n - k) as nat)),
                forall|j: int| 0 <= j < out@.len() ==> {
                    let e = #[trigger] out@[j];
                    e.0 <= e.1 <= e.2 <= e.3 <= raw@.len()
                },
            decreases n - k,
        {
            let (k0, k1) = match key_at(raw, idx) {
                None => return None,
                Some(p) => p,
            };
            let v1 = match skip_cbor_value(raw, k1) {
                None => return None,
                Some(v) => v,
            };
            let ghost before = pos_views(out@);
            if !key_is_sig(vstd::slice::slice_subrange(raw, k0, k1)) {
                out.push((idx, k0, k1, v1));
                proof {
                    assert(pos_views(out@) =~= before.push((idx as int, k0 as int, k1 as int, v1 as int)));
                    lemma_prepend_push(before, (idx as int, k0 as int, k1 as int, v1 as int), scan_definite(raw@, v1 as int, (n - k - 1) as nat));
                }
            }
            idx = v1;
            k = k + 1;
        }
        proof {
            assert(pos_views(out@) + Seq::<EntryPos>::empty() =~= pos_views(out@));
        }
    }
    Some(out)
}

/// `c` put before what `rest` holds, if it holds anything.
pub open spec fn prepend(c: Seq<EntryPos>, rest: Option<Seq<EntryPos>>) -> Option<Seq<EntryPos>> {
    match rest {
        None => None,
        Some(r) => Some(c + r),
    }
}

proof fn lemma_prepend_push(c: Seq<EntryPos>, e: EntryPos, rest: Option<Seq<EntryPos>>)
    ensures
        prepend(c.push(e), rest) == prepend(c, match rest {
            None => None,
            Some(r) => Some(seq![e] + r),
        }),
{
    if let Some(r) = rest {
        assert(c.push(e) + r =~= c + (seq![e] + r));
    }
}

/// Entry positions as integers.
pub open spec fn pos_views(v: Seq<(usize, usize, usize, usize)>) -> Seq<EntryPos> {
    v.map_values(|e: (usize, usize, usize, usize)| (e.0 as int, e.1 as int, e.2 as int, e.3 as int))
}

/// Whether entry `e` has its key before that of `f`.
fn entry_before(raw: &[u8], e: (usize, usize, usize, usize), f: (usize, usize, usize, usize)) -> (r: bool)
    requires
        e.1 <= e.2 <= raw@.len(),
        f.1 <= f.2 <= raw@.len(),
    ensures
        r == key_before(
            key_of(raw@, (e.0 as int, e.1 as int, e.2 as int, e.3 as int)),
            key_of(raw@, (f.0 as int, f.1 as int, f.2 as int, f.3 as int)),
        ),
{
    let a = vstd::slice::slice_subrange(raw, e.1, e.2);
    let b = vstd::slice::slice_subrange(raw, f.1, f.2);
    a.len() < b.len() || (a.len() == b.len() && less_bytes(a, b))
}

/// Sorts entries into canonical key order, keeping entries with equal keys in the order
/// written.
fn sort_entries(raw: &[u8], v: &Vec<(usize, usize, usize, usize)>) -> (r: Vec<(usize, usize, usize, usize)>)
    requires
        forall|j: int| 0 <= j < v@.len() ==> {
            let e = #[trigger] v@[j];
            e.0 <= e.1 <= e.2 <= e.3 <= raw@.len()
        },
    ensures
        same_entries(pos_views(r@), pos_views(v@)),
        keys_sorted(raw@, pos_views(r@)),
        pos_views(r@) == sorted_prefix(raw@, pos_views(v@), v@.len() as int),
        forall|j: int| 0 <= j < r@.len() ==> {
            let e = #[trigger] r@[j];
            e.0 <= e.1 <= e.2 <= e.3 <= raw@.len()
        },
{
    broadcast use vstd::seq_lib::group_to_multiset_ensures;
    let mut out: Vec<(usize, usize, usize, usize)> = Vec::new();
    let mut i: usize = 0;
    while i < v.len()
        invariant
            i <= v@.len(),
            forall|j: int| 0 <= j < v@.len() ==> {
                let e = #[trigger] v@[j];
                e.0 <= e.1 <= e.2 <= e.3 <= raw@.len()
            },
            forall|j: int| 0 <= j < out@.len() ==> {
                let e = #[trigger] out@[j];
                e.0 <= e.1 <= e.2 <= e.3 <= raw@.len()
            },
            pos_views(out@).to_multiset() == pos_views(v@.take(i as int)).to_multiset(),
            keys_sorted(raw@, pos_views(out@)),
            pos_views(out@) == sorted_prefix(raw@, pos_views(v@), i as int),
        decreases v@.len() - i,
    {
        let e = v[i];
        let mut pos: usize = 0;
        while pos < out.len() && !entry_before(raw, e, out[pos])
            invariant
                pos <= out@.len(),
                e.0 <= e.1 <= e.2 <= e.3 <= raw@.len(),
                forall|j: int| 0 <= j < out@.len() ==> {
                    let f = #[trigger] out@[j];
                    f.0 <= f.1 <= f.2 <= f.3 <= raw@.len()
                },
                pos > 0 ==> !key_before(
                    key_of(raw@, (e.0 as int, e.1 as int, e.2 as int, e.3 as int)),
                    key_of(raw@, pos_views(out@)[pos - 1]),
                ),
                ins_pos(raw@, pos_views(out@), (e.0 as int, e.1 as int, e.2 as int, e.3 as int), 0) == ins_pos(
                    raw@,
                    pos_views(out@),
                    (e.0 as int, e.1 as int, e.2 as int, e.3 as int),
                    pos as int,
                ),
            decreases out@.len() - pos,
        {
            pos = pos + 1;
        }
        let ghost before = pos_views(out@);
        let ghost ev = (e.0 as int, e.1 as int, e.2 as int, e.3 as int);
        out.insert(pos, e);
        proof {
            assert(pos_views(out@) =~= before.insert(pos as int, ev));
            assert(ins_pos(raw@, before, ev, 0) == pos);
            assert(pos_views(v@)[i as int] == ev);
            vstd::seq_lib::to_multiset_insert(before, pos as int, ev);
            assert(v@.take(i + 1) =~= v@.take(i as int).push(e));
            assert(pos_views(v@.take(i + 1)) =~= pos_views(v@.take(i as int)).push(ev));
            let now = pos_views(out@);
            assert forall|b: int| 0 < b < now.len() implies !key_before(key_of(raw@, #[trigger] now[b]), key_of(raw@, now[b - 1])) by {
                if b < pos {
                    assert(now[b] == before[b] && now[b - 1] == before[b - 1]);
                } else if b == pos {
                    assert(now[b] == ev && now[b - 1] == before[b - 1]);
                } else if b == pos + 1 {
                    assert(now[b - 1] == ev && now[b] == before[b - 1]);
                    let ke = key_of(raw@, ev);
                    let kf = key_of(raw@, before[b - 1]);
                    assert(key_before(ke, kf));
                    lemma_bytes_lt_asym(ke, kf);
                } else {
                    assert(now[b - 1] == before[b - 2] && now[b] == before[b - 1]);
                    assert(before[b - 1] == before[(b - 1)]);
                }
            }
            pos_views(v@.take(i as int)).to_multiset_ensures();
            assert(pos_views(out@).to_multiset() == before.to_multiset().insert(ev));
        }
        i = i + 1;
    }
    assert(v@.take(v@.len() as int) =~= v@);
    out
}

/// Appends the map head for `n` entries.
fn push_header(out: &mut Vec<u8>, n: usize)
    ensures
        final(out)@ == old(out)@ + map_header(n as nat),
{
    let m = n as u64;
    if m < 24 {
        out.push(0xa0 + m as u8);
    } else if m < 256 {
        out.push(0xb8);
        out.push(m as u8);
    } else if m < 65536 {
        out.push(0xb9);
        out.push((m / 256) as u8);
        out.push((m % 256) as u8);
    } else if m < 0x1_0000_0000 {
        out.push(0xba);
        out.push((m / 0x100_0000) as u8);
        out.push(((m / 0x1_0000) % 256) as u8);
        out.push(((m / 256) % 256) as u8);
        out.push((m % 256) as u8);
    } else {
        out.push(0xbb);
        out.push(((m / 0x100_0000_0000_0000) % 256) as u8);
        out.push(((m / 0x1_0000_0000_0000) % 256) as u8);
        out.push(((m / 0x100_0000_0000) % 256) as u8);
        out.push(((m / 0x1_0000_0000) % 256) as u8);
        out.push(((m / 0x100_0000) % 256) as u8);
        out.push(((m / 0x1_0000) % 256) as u8);
        out.push(((m / 256) % 256) as u8);
        out.push((m % 256) as u8);
    }
    assert(final(out)@ =~= old(out)@ + map_header(n as nat));
}

/// The exact bytes that were signed for the commit block `raw`: its top-level map with
/// the `sig` entry removed and the keys in canonical order, values as written (see
/// `canonical_of`). `None` only if the block cannot be read as a map.
pub fn prepare_canonical_commit(raw: &[u8]) -> (r: Option<Vec<u8>>)
    ensures
        r is Some <==> commit_entries(raw@) is Some,
        match r {
            None => canonical_of(raw@) is None,
            Some(out) => canonical_of(raw@) == Some(out@),
        },
        r matches Some(out) ==> is_canonical(raw@, out@),
{
    if raw.len() == 0 {
        return None;
    }
    let entries = match collect_entries(raw) {
        None => return None,
        Some(v) => v,
    };
    let sorted = sort_entries(raw, &entries);
    proof {
        broadcast use vstd::seq_lib::group_to_multiset_ensures;
        assert(pos_views(sorted@).len() == pos_views(entries@).len()) by {
            assert(pos_views(sorted@).to_multiset().len() == pos_views(entries@).to_multiset().len());
        }
    }
    let n = sorted.len();
    let mut out: Vec<u8> = Vec::new();
    push_header(&mut out, n);
    let mut j: usize = 0;
    while j < n
        invariant
            n == sorted@.len(),
            j <= n,
            forall|q: int| 0 <= q < sorted@.len() ==> {
                let e = #[trigger] sorted@[q];
                e.0 <= e.1 <= e.2 <= e.3 <= raw@.len()
            },
            out@ == map_header(n as nat) + entries_bytes(raw@, pos_views(sorted@).take(j as int)),
        decreases n - j,
    {
        let e = sorted[j];
        append_bytes(&mut out, vstd::slice::slice_subrange(raw, e.0, e.3));
        proof {
            let ps = pos_views(sorted@);
            assert(ps.take(j + 1).drop_last() =~= ps.take(j as int));
            assert(ps.take(j + 1).last() == ps[j as int]);
        }
        j = j + 1;
    }
    proof {
        let ps = pos_views(sorted@);
        assert(ps.take(n as int) =~= ps);
        assert(is_canonical(raw@, out@)) by {
            assert(keys_sorted(raw@, ps));
        }
    }
    Some(out)
}

/// The SHA-256 digest of the signed form of a commit block (see
/// `prepare_canonical_commit`); `None` where that form does not exist.
pub fn hash_canonical_commit(raw: &[u8]) -> (r: Option<[u8; 32]>)
    ensures
        r is Some <==> commit_entries(raw@) is Some,
        match r {
            None => canonical_of(raw@) is None,
            Some(h) => h@ == sha256_of(canonical_of(raw@).unwrap()),
        },
        r matches Some(h) ==> exists|out: Seq<u8>| is_canonical(raw@, out) && h@ == sha256_of(out),
{
    match prepare_canonical_commit(raw) {
        None => None,
        Some(out) => Some(sha256(out.as_slice())),
    }
}

} // verus!
