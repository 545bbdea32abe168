//! The Merkle root over a segment's payloads: BLAKE3 leaves, pairs hashed together,
//! an odd node carried up unchanged.
use vstd::prelude::*;
use crate::codec::{blake3_hash, blake3_of};

verus! {

/// One layer up: each pair of nodes hashed together, a last odd node carried as is.
pub open spec fn merkle_layer(hs: Seq<Seq<u8>>) -> Seq<Seq<u8>>
    decreases hs.len(),
{
    if hs.len() == 0 {
        Seq::empty()
    } else if hs.len() == 1 {
        hs
    } else {
        seq![blake3_of(hs[0] + hs[1])] + merkle_layer(hs.subrange(2, hs.len() as int))
    }
}

pub proof fn lemma_layer_len(hs: Seq<Seq<u8>>)
    ensures
        merkle_layer(hs).len() == (hs.len() + 1) / 2,
    decreases hs.len(),
{
    if hs.len() >= 2 {
        lemma_layer_len(hs.subrange(2, hs.len() as int));
    }
}

#[via_fn]
proof fn merkle_top_decreases(hs: Seq<Seq<u8>>) {
    if hs.len() > 1 {
        lemma_layer_len(hs);
    }
}

/// The single node that repeated layering leaves.
pub open spec fn merkle_top(hs: Seq<Seq<u8>>) -> Seq<u8>
    decreases hs.len() via merkle_top_decreases
{
    if hs.len() == 0 {
        Seq::empty()
    } else if hs.len() == 1 {
        hs[0]
    } else {
        merkle_top(merkle_layer(hs))
    }
}

/// The root over the leaf digests `leaves`; with no leaf, the digest of nothing.
pub open spec fn merkle_root(leaves: Seq<Seq<u8>>) -> Seq<u8> {
    if leaves.len() == 0 {
        blake3_of(Seq::empty())
    } else {
        merkle_top(leaves)
    }
}

/// The leaf digests of payloads.
pub open spec fn leaf_digests(payloads: Seq<Seq<u8>>) -> Seq<Seq<u8>> {
    payloads.map_values(|p: Seq<u8>| blake3_of(p))
}

/// Digest views of a vector of digests.
pub open spec fn digest_views(v: Seq<[u8; 32]>) -> Seq<Seq<u8>> {
    v.map_values(|d: [u8; 32]| d@)
}

/// Builds a Merkle root leaf by leaf.
pub struct MerkleTree {
    leaves: Vec<[u8; 32]>,
}

impl MerkleTree {
    /// The leaf digests pushed so far.
    pub closed spec fn view(&self) -> Seq<Seq<u8>> {
        digest_views(self.leaves@)
    }

    /// A tree with no leaf.
    pub fn new() -> (r: Self)
        ensures
            r@ == Seq::<Seq<u8>>::empty(),
    {
        let r = MerkleTree { leaves: Vec::new() };
        assert(r@ =~= Seq::<Seq<u8>>::empty());
        r
    }

    /// Adds the digest of `data` as the next leaf.
    pub fn push(&mut self, data: &[u8])
        ensures
            final(self)@ == old(self)@.push(blake3_of(data@)),
    {
        let h = blake3_hash(data);
        self.leaves.push(h);
        assert(self@ =~= old(self)@.push(blake3_of(data@)));
    }

    /// The root over the leaves pushed so far.
    pub fn root(&self) -> (r: [u8; 32])
        ensures
            r@ == merkle_root(self@),
    {
        if self.leaves.len() == 0 {
            let empty: Vec<u8> = Vec::new();
            assert(empty@ =~= Seq::<u8>::empty());
            return blake3_hash(empty.as_slice());
        }
        let mut current: Vec<[u8; 32]> = self.leaves.clone();
        assert(digest_views(current@) =~= self@);
        while current.len() > 1
            invariant
                current@.len() >= 1,
                merkle_top(digest_views(current@)) == merkle_top(self@),
            decreases current@.len(),
        {
            let next = hash_layer(&current);
            proof {
                lemma_layer_len(digest_views(current@));
            }
            current = next;
        }
        assert(merkle_top(digest_views(current@)) == current@[0]@);
        current[0]
    }
}

/// Hashes one layer.
fn hash_layer(cur: &Vec<[u8; 32]>) -> (r: Vec<[u8; 32]>)
    ensures
        digest_views(r@) == merkle_layer(digest_views(cur@)),
{
    let n = cur.len();
    let mut out: Vec<[u8; 32]> = Vec::new();
    let mut i: usize = 0;
    assert(digest_views(cur@).subrange(0, n as int) =~= digest_views(cur@));
    assert(digest_views(out@) + merkle_layer(digest_views(cur@)) =~= merkle_layer(digest_views(cur@)));
    while i + 1 < n
        invariant
            n == cur@.len(),
            i <= n,
            i % 2 == 0,
            merkle_layer(digest_views(cur@)) == digest_views(out@) + merkle_layer(
                digest_views(cur@).subrange(i as int, n as int),
            ),
        decreases n - i,
    {
        let mut buf: Vec<u8> = Vec::new();
        crate::cluster::append_bytes(&mut buf, cur[i].as_slice());
        crate::cluster::append_bytes(&mut buf, cur[i + 1].as_slice());
        let h = blake3_hash(buf.as_slice());
        proof {
            let s = digest_views(cur@).subrange(i as int, n as int);
            assert(s[0] == cur@[i as int]@);
            assert(s[1] == cur@[i + 1]@);
            assert(s.subrange(2, s.len() as int) =~= digest_views(cur@).subrange(i + 2, n as int));
            assert(digest_views(out@.push(h)) =~= digest_views(out@).push(h@));
            assert(digest_views(out@).push(h@) + merkle_layer(s.subrange(2, s.len() as int)) =~= digest_views(out@) + (seq![h@] + merkle_layer(s.subrange(2, s.len() as int))));
        }
        out.push(h);
        i = i + 2;
    }
    if i < n {
        proof {
            let s = digest_views(cur@).subrange(i as int, n as int);
            assert(s.len() == 1);
            assert(digest_views(out@.push(cur@[i as int])) =~= digest_views(out@) + s);
        }
        out.push(cur[i]);
    } else {
        assert(digest_views(cur@).subrange(i as int, n as int) =~= Seq::<Seq<u8>>::empty());
        assert(digest_views(out@) + Seq::<Seq<u8>>::empty() =~= digest_views(out@));
    }
    out
}

} // verus!
