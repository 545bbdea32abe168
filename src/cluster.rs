//! The cluster layout: `[u16 count][u32 len × count][payload bytes …]`, little-endian.
use vstd::prelude::*;
use vstd::bytes::{
    spec_u16_to_le_bytes, spec_u32_to_le_bytes, spec_u32_from_le_bytes, u16_to_le_bytes,
    u32_to_le_bytes, u32_from_le_bytes, u16_from_le_bytes, spec_u16_from_le_bytes,
};

verus! {

/// The byte strings of `ps` laid end to end.
pub open spec fn concat(ps: Seq<Seq<u8>>) -> Seq<u8>
    decreases ps.len(),
{
    if ps.len() == 0 {
        Seq::empty()
    } else {
        concat(ps.drop_last()) + ps.last()
    }
}

/// The table of payload lengths, four little-endian bytes each.
pub open spec fn len_table(ps: Seq<Seq<u8>>) -> Seq<u8>
    decreases ps.len(),
{
    if ps.len() == 0 {
        Seq::empty()
    } else {
        len_table(ps.drop_last()) + spec_u32_to_le_bytes(ps.last().len() as u32)
    }
}

/// Whether `ps` fits the layout: at most 65535 payloads of at most `u32::MAX` bytes.
pub open spec fn fits_cluster(ps: Seq<Seq<u8>>) -> bool {
    ps.len() <= u16::MAX && forall|i: int| 0 <= i < ps.len() ==> #[trigger] ps[i].len() <= u32::MAX
}

/// The uncompressed cluster holding the payloads `ps` in order.
pub open spec fn cluster_bytes(ps: Seq<Seq<u8>>) -> Seq<u8> {
    spec_u16_to_le_bytes(ps.len() as u16) + len_table(ps) + concat(ps)
}

/// Where payload `i` of the cluster of `ps` begins.
pub open spec fn inner_offset(ps: Seq<Seq<u8>>, i: int) -> int {
    (2 + 4 * ps.len() + concat(ps.take(i)).len()) as int
}

pub proof fn lemma_len_table_len(ps: Seq<Seq<u8>>)
    ensures
        len_table(ps).len() == 4 * ps.len(),
    decreases ps.len(),
{
    if ps.len() > 0 {
        lemma_len_table_len(ps.drop_last());
        vstd::bytes::lemma_auto_spec_u32_to_from_le_bytes();
    }
}

/// `concat` of a prefix of `ps` is a prefix of `concat(ps)`.
pub proof fn lemma_concat_prefix(ps: Seq<Seq<u8>>, k: int)
    requires
        0 <= k <= ps.len(),
    ensures
        concat(ps.take(k)) =~= concat(ps).subrange(0, concat(ps.take(k)).len() as int),
        concat(ps.take(k)).len() <= concat(ps).len(),
    decreases ps.len() - k,
{
    if k < ps.len() {
        lemma_concat_prefix(ps, k + 1);
        assert(ps.take(k + 1).drop_last() =~= ps.take(k));
    } else {
        assert(ps.take(k) =~= ps);
    }
}

/// Payload `i` stands in `concat(ps)` right after the payloads before it.
pub proof fn lemma_concat_slice(ps: Seq<Seq<u8>>, i: int)
    requires
        0 <= i < ps.len(),
    ensures
        concat(ps.take(i)).len() + ps[i].len() <= concat(ps).len(),
        concat(ps).subrange(
            concat(ps.take(i)).len() as int,
            (concat(ps.take(i)).len() + ps[i].len()) as int,
        ) =~= ps[i],
{
    lemma_concat_prefix(ps, i + 1);
    assert(ps.take(i + 1).drop_last() =~= ps.take(i));
    let a = concat(ps.take(i));
    let b = concat(ps.take(i + 1));
    assert(b =~= a + ps[i]);
    assert(concat(ps).subrange(a.len() as int, (a.len() + ps[i].len()) as int) =~= b.subrange(a.len() as int, b.len() as int));
}

/// Payloads of at most `b` bytes each take at most `ps.len() * b` bytes end to end.
pub proof fn lemma_concat_bound(ps: Seq<Seq<u8>>, b: nat)
    requires
        forall|i: int| 0 <= i < ps.len() ==> (#[trigger] ps[i]).len() <= b,
    ensures
        concat(ps).len() <= ps.len() * b,
    decreases ps.len(),
{
    if ps.len() > 0 {
        let q = ps.drop_last();
        assert forall|i: int| 0 <= i < q.len() implies (#[trigger] q[i]).len() <= b by {
            assert(q[i] == ps[i]);
        }
        lemma_concat_bound(q, b);
        assert(ps.last().len() <= b);
        assert(concat(q).len() + ps.last().len() <= q.len() * b + b);
        assert(q.len() * b + b == ps.len() * b) by (nonlinear_arith)
            requires
                q.len() + 1 == ps.len(),
        ;
    }
}

/// Each entry of the length table holds the length of its payload.
pub proof fn lemma_len_table_entry(ps: Seq<Seq<u8>>, i: int)
    requires
        0 <= i < ps.len(),
    ensures
        len_table(ps).len() == 4 * ps.len(),
        len_table(ps).subrange(4 * i, 4 * i + 4) =~= spec_u32_to_le_bytes(ps[i].len() as u32),
    decreases ps.len(),
{
    lemma_len_table_len(ps);
    lemma_len_table_len(ps.drop_last());
    vstd::bytes::lemma_auto_spec_u32_to_from_le_bytes();
    if i < ps.len() - 1 {
        lemma_len_table_entry(ps.drop_last(), i);
    }
}

/// Appends the bytes of `b` to `out`.
pub fn append_bytes(out: &mut Vec<u8>, b: &[u8])
    ensures
        final(out)@ == old(out)@ + b@,
{
    let mut k: usize = 0;
    while k < b.len()
        invariant
            k <= b@.len(),
            out@ == old(out)@ + b@.subrange(0, k as int),
        decreases b@.len() - k,
    {
        out.push(b[k]);
        k = k + 1;
        assert(b@.subrange(0, k as int) =~= b@.subrange(0, (k - 1) as int).push(b@[k - 1]));
    }
    assert(b@.subrange(0, b@.len() as int) =~= b@);
}

/// The views of a vector of byte vectors.
pub open spec fn views(ps: Seq<Vec<u8>>) -> Seq<Seq<u8>> {
    ps.map_values(|p: Vec<u8>| p@)
}

/// Lays out the payloads `ps` as one uncompressed cluster.
pub fn encode_cluster(ps: &Vec<Vec<u8>>) -> (r: Vec<u8>)
    requires
        fits_cluster(views(ps@)),
    ensures
        r@ == cluster_bytes(views(ps@)),
{
    let ghost vs = views(ps@);
    let n = ps.len();
    let mut out = u16_to_le_bytes(n as u16);
    let mut i: usize = 0;
    while i < n
        invariant
            n == ps@.len(),
            vs == views(ps@),
            fits_cluster(vs),
            i <= n,
            out@ == spec_u16_to_le_bytes(n as u16) + len_table(vs.take(i as int)),
        decreases n - i,
    {
        assert(vs[i as int].len() <= u32::MAX);
        let lb = u32_to_le_bytes(ps[i].len() as u32);
        append_bytes(&mut out, lb.as_slice());
        proof {
            assert(vs.take(i + 1).drop_last() =~= vs.take(i as int));
            assert(vs.take(i + 1).last() == ps@[i as int]@);
        }
        i = i + 1;
    }
    assert(vs.take(n as int) =~= vs);
    let mut j: usize = 0;
    while j < n
        invariant
            n == ps@.len(),
            vs == views(ps@),
            j <= n,
            out@ == spec_u16_to_le_bytes(n as u16) + len_table(vs) + concat(vs.take(j as int)),
        decreases n - j,
    {
        append_bytes(&mut out, ps[j].as_slice());
        proof {
            assert(vs.take(j + 1).drop_last() =~= vs.take(j as int));
            assert(vs.take(j + 1).last() == ps@[j as int]@);
        }
        j = j + 1;
    }
    proof {
        assert(vs.take(n as int) =~= vs);
        assert(vs.len() == n);
    }
    out
}

/// Reads a cluster back into its payloads; `None` if the bytes are shorter than the
/// count and lengths they announce.
pub fn decode_cluster(raw: &[u8]) -> (r: Option<Vec<Vec<u8>>>)
    ensures
        forall|ps: Seq<Seq<u8>>| fits_cluster(ps) && raw@ == cluster_bytes(ps) ==> (r matches Some(qs) && views(qs@) == ps),
        r matches Some(qs) ==> fits_cluster(views(qs@)),
{
    let len = raw.len();
    if len < 2 {
        proof {
            assert forall|ps: Seq<Seq<u8>>| fits_cluster(ps) && raw@ == cluster_bytes(ps) implies false by {
                lemma_cluster_facts(ps, 0);
            }
        }
        return None;
    }
    let head = vstd::slice::slice_subrange(raw, 0, 2);
    let count = u16_from_le_bytes(head) as usize;
    if count * 4 > len - 2 {
        proof {
            assert forall|ps: Seq<Seq<u8>>| fits_cluster(ps) && raw@ == cluster_bytes(ps) implies false by {
                lemma_cluster_facts(ps, 0);
            }
        }
        return None;
    }
    let mut out: Vec<Vec<u8>> = Vec::new();
    let mut curr: usize = 2 + count * 4;
    proof {
        assert forall|ps: Seq<Seq<u8>>| #![trigger cluster_bytes(ps)] fits_cluster(ps) && raw@ == cluster_bytes(ps) implies {
            &&& views(out@) == ps.take(0)
            &&& curr == inner_offset(ps, 0)
        } by {
            lemma_cluster_facts(ps, 0);
            assert(ps.take(0) =~= Seq::<Seq<u8>>::empty());
            assert(views(out@) =~= Seq::<Seq<u8>>::empty());
        }
    }
    let mut i: usize = 0;
    while i < count
        invariant
            len == raw@.len(),
            2 + count * 4 <= len,
            i <= count,
            count <= u16::MAX,
            curr <= len,
            count == spec_u16_from_le_bytes(raw@.subrange(0, 2)),
            out@.len() == i,
            forall|k: int| 0 <= k < i ==> (#[trigger] out@[k])@.len() <= u32::MAX,
            forall|ps: Seq<Seq<u8>>| #![trigger cluster_bytes(ps)] fits_cluster(ps) && raw@ == cluster_bytes(ps) ==> {
                &&& views(out@) == ps.take(i as int)
                &&& curr == inner_offset(ps, i as int)
            },
        decreases count - i,
    {
        let l = u32_from_le_bytes(vstd::slice::slice_subrange(raw, 2 + i * 4, 6 + i * 4)) as usize;
        if l > len - curr {
            proof {
                assert forall|ps: Seq<Seq<u8>>| fits_cluster(ps) && raw@ == cluster_bytes(ps) implies false by {
                    lemma_cluster_facts(ps, 0);
                    lemma_cluster_facts(ps, i as int);
                }
            }
            return None;
        }
        let p = vstd::slice::slice_subrange(raw, curr, curr + l);
        let v = crate::car::copy_bytes(p);
        proof {
            assert forall|ps: Seq<Seq<u8>>| #![trigger cluster_bytes(ps)] fits_cluster(ps) && raw@ == cluster_bytes(ps) implies {
                &&& views(out@.push(v)) == ps.take(i + 1)
                &&& curr + l == inner_offset(ps, i + 1)
            } by {
                lemma_cluster_facts(ps, 0);
                lemma_cluster_facts(ps, i as int);
                assert(ps.take(i + 1).drop_last() =~= ps.take(i as int));
                assert(views(out@.push(v)) =~= views(out@).push(v@));
                assert(ps.take(i + 1) =~= ps.take(i as int).push(ps[i as int]));
            }
        }
        assert(l <= u32::MAX);
        out.push(v);
        curr = curr + l;
        i = i + 1;
    }
    proof {
        assert forall|ps: Seq<Seq<u8>>| fits_cluster(ps) && raw@ == cluster_bytes(ps) implies views(out@) == ps by {
            lemma_cluster_facts(ps, 0);
            assert(ps.take(count as int) =~= ps);
        }
        assert forall|k: int| 0 <= k < views(out@).len() implies #[trigger] views(out@)[k].len() <= u32::MAX by {
            assert(views(out@)[k] == out@[k]@);
        }
    }
    Some(out)
}

/// What the layout gives away about the cluster of `ps` around payload `i`.
proof fn lemma_cluster_facts(ps: Seq<Seq<u8>>, i: int)
    requires
        fits_cluster(ps),
        0 <= i <= ps.len(),
    ensures
        cluster_bytes(ps).len() == 2 + 4 * ps.len() + concat(ps).len(),
        spec_u16_from_le_bytes(cluster_bytes(ps).subrange(0, 2)) == ps.len(),
        i < ps.len() ==> spec_u32_from_le_bytes(cluster_bytes(ps).subrange(2 + 4 * i, 6 + 4 * i))
            == ps[i].len(),
        i < ps.len() ==> inner_offset(ps, i) + ps[i].len() <= cluster_bytes(ps).len(),
        i < ps.len() ==> cluster_bytes(ps).subrange(inner_offset(ps, i), inner_offset(ps, i) + ps[i].len())
            == ps[i],
        i < ps.len() ==> inner_offset(ps, i + 1) == inner_offset(ps, i) + ps[i].len(),
{
    vstd::bytes::lemma_auto_spec_u16_to_from_le_bytes();
    vstd::bytes::lemma_auto_spec_u32_to_from_le_bytes();
    lemma_len_table_len(ps);
    let c = cluster_bytes(ps);
    let h = spec_u16_to_le_bytes(ps.len() as u16);
    assert(c.subrange(0, 2) =~= h);
    if i < ps.len() {
        lemma_len_table_entry(ps, i);
        assert(ps[i].len() <= u32::MAX);
        assert(c.subrange(2 + 4 * i, 6 + 4 * i) =~= len_table(ps).subrange(4 * i, 4 * i + 4));
        lemma_concat_slice(ps, i);
        let a = concat(ps.take(i)).len();
        assert(c.subrange(inner_offset(ps, i), inner_offset(ps, i) + ps[i].len()) =~= concat(ps).subrange(a as int, (a + ps[i].len()) as int));
        assert(ps.take(i + 1).drop_last() =~= ps.take(i));
    }
}

/// Law of the cluster layout: reading back a cluster written from payloads gives
/// those payloads, and each payload stands at its inner offset.
pub proof fn lemma_cluster_round_trip(ps: Seq<Seq<u8>>, i: int)
    requires
        fits_cluster(ps),
        0 <= i < ps.len(),
    ensures
        inner_offset(ps, i) + ps[i].len() <= cluster_bytes(ps).len(),
        cluster_bytes(ps).subrange(inner_offset(ps, i), inner_offset(ps, i) + ps[i].len()) == ps[i],
{
    lemma_cluster_facts(ps, i);
}

} // verus!
