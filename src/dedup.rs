//! The deduplication window: a Bloom filter in front of an exact first-in first-out
//! window of recent content digests.
use vstd::prelude::*;
use crate::car::bytes_eq;

verus! {

/// A `fastbloom` Bloom filter. Its default hasher lives in a private module of that
/// crate, so the filter is held opaquely here.
#[verifier::external_body]
pub struct Bloom {
    inner: fastbloom::BloomFilter,
}

/// The digests inserted into a Bloom filter.
pub uninterp spec fn bloom_members(b: Bloom) -> Set<Seq<u8>>;

/// Relies on `fastbloom::BloomFilter::with_num_bits(..).hashes(..)`: a filter with
/// nothing inserted. It panics on zero bits, and rounds the bits up to whole words.
#[verifier::external_body]
fn bloom_new(num_bits: usize, num_hashes: u32) -> (r: Bloom)
    requires
        0 < num_bits <= usize::MAX - 63,
    ensures
        bloom_members(r) == Set::<Seq<u8>>::empty(),
{
    Bloom { inner: fastbloom::BloomFilter::with_num_bits(num_bits).hashes(num_hashes) }
}

/// Relies on `fastbloom::BloomFilter::insert`: the digest is inserted.
#[verifier::external_body]
fn bloom_insert(b: &mut Bloom, d: &[u8; 32])
    ensures
        bloom_members(*final(b)) == bloom_members(*old(b)).insert(d@),
{
    b.inner.insert(d);
}

/// Relies on `fastbloom::BloomFilter::contains`: a Bloom filter has no false negatives,
/// so an inserted digest always tests present (others may too).
#[verifier::external_body]
fn bloom_contains(b: &Bloom, d: &[u8; 32]) -> (r: bool)
    ensures
        bloom_members(*b).contains(d@) ==> r,
{
    b.inner.contains(d)
}

/// Digest views of a window.
pub open spec fn window_view(w: Seq<[u8; 32]>) -> Seq<Seq<u8>> {
    w.map_values(|d: [u8; 32]| d@)
}

/// The window after a new digest: appended, and the oldest dropped past the capacity.
pub open spec fn window_after(w: Seq<Seq<u8>>, d: Seq<u8>, cap: nat) -> Seq<Seq<u8>> {
    let pushed = w.push(d);
    if pushed.len() > cap {
        pushed.subrange(pushed.len() - cap, pushed.len() as int)
    } else {
        pushed
    }
}

/// Recent digests, with a Bloom filter in front of the exact window.
pub struct DedupWindow {
    bloom: Bloom,
    window: Vec<[u8; 32]>,
    capacity: usize,
}

impl DedupWindow {
    /// The digests in the window, oldest first.
    pub closed spec fn view(&self) -> Seq<Seq<u8>> {
        window_view(self.window@)
    }

    /// Every digest ever inserted into the filter.
    pub closed spec fn seen(&self) -> Set<Seq<u8>> {
        bloom_members(self.bloom)
    }

    /// How many digests the window keeps.
    pub closed spec fn cap(&self) -> nat {
        self.capacity as nat
    }

    /// The invariant: the window fits its capacity and the filter holds all of it.
    pub closed spec fn wf(&self) -> bool {
        &&& self.capacity >= 1
        &&& self.window@.len() <= self.capacity
        &&& forall|i: int| 0 <= i < self.window@.len() ==> self.seen().contains(#[trigger] self.window@[i]@)
    }

    /// An empty window of `capacity` digests (at least one) behind a filter of
    /// `bloom_bits` bits and `num_hashes` hash functions.
    pub fn new(capacity: usize, bloom_bits: usize, num_hashes: u32) -> (r: Self)
        requires
            0 < bloom_bits <= usize::MAX - 63,
        ensures
            r.wf(),
            r@.len() == 0,
            r.cap() >= 1,
            r.cap() == if capacity == 0 { 1 } else { capacity as nat },
            r.seen() == Set::<Seq<u8>>::empty(),
    {
        let r = DedupWindow {
            bloom: bloom_new(bloom_bits, num_hashes),
            window: Vec::new(),
            capacity: if capacity == 0 { 1 } else { capacity },
        };
        assert(r@ =~= Seq::<Seq<u8>>::empty());
        r
    }

    /// Whether `d` may have been seen: true for every digest ever observed.
    pub fn might_contain(&self, d: &[u8; 32]) -> (r: bool)
        ensures
            self.seen().contains(d@) ==> r,
    {
        bloom_contains(&self.bloom, d)
    }

    /// Observes digest `d`; returns whether it is a duplicate of one in the window. A
    /// digest not in the window is inserted into the filter and appended to the window,
    /// the oldest digest leaving when the window is full.
    pub fn observe(&mut self, d: &[u8; 32]) -> (r: bool)
        requires
            old(self).wf(),
        ensures
            final(self).wf(),
            final(self).cap() == old(self).cap(),
            r == old(self)@.contains(d@),
            r ==> final(self)@ == old(self)@ && final(self).seen() == old(self).seen(),
            !r ==> final(self)@ == window_after(old(self)@, d@, old(self).cap()) && final(self).seen() == old(
                self,
            ).seen().insert(d@),
            final(self).seen().contains(d@),
    {
        if bloom_contains(&self.bloom, d) {
            let mut i: usize = 0;
            while i < self.window.len()
                invariant
                    i <= self.window@.len(),
                    self.wf(),
                    self@ == old(self)@,
                    self.seen() == old(self).seen(),
                    self.cap() == old(self).cap(),
                    forall|j: int| 0 <= j < i ==> (#[trigger] self.window@[j])@ != d@,
                decreases self.window@.len() - i,
            {
                if bytes_eq(self.window[i].as_slice(), d.as_slice()) {
                    proof {
                        assert(self@[i as int] == d@);
                        assert(self.seen().contains(self.window@[i as int]@));
                    }
                    return true;
                }
                i = i + 1;
            }
            proof {
                assert forall|j: int| 0 <= j < self@.len() implies self@[j] != d@ by {
                    assert(self@[j] == self.window@[j]@);
                }
            }
        } else {
            proof {
                assert forall|j: int| 0 <= j < self@.len() implies self@[j] != d@ by {
                    assert(self@[j] == self.window@[j]@);
                }
            }
        }
        let ghost before = self@;
        bloom_insert(&mut self.bloom, d);
        self.window.push(*d);
        assert(self@ =~= before.push(d@));
        if self.window.len() > self.capacity {
            self.window.remove(0);
            assert(self@ =~= before.push(d@).subrange(1, (before.len() + 1) as int));
        }
        proof {
            assert forall|i: int| 0 <= i < self.window@.len() implies self.seen().contains(#[trigger] self.window@[i]@) by {
                assert(self.window@[i]@ == self@[i]);
            }
        }
        false
    }
}

} // verus!
