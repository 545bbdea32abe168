//! The tombstone bitset: one bit per sequence, set and never cleared.
use vstd::prelude::*;

verus! {

/// Whether bit `k` (0 to 7) of byte `b` is set.
pub open spec fn bit_of(b: u8, k: u64) -> bool {
    b & (1u8 << (k as u8)) != 0
}

/// Marks of deleted sequences. Bit `seq` is bit `seq % 8` of byte `seq / 8`.
pub struct TombstoneStore {
    bits: Vec<u8>,
}

impl TombstoneStore {
    /// Whether the bit of `seq` is set in the bytes `bits`.
    pub open spec fn marked(bits: Seq<u8>, seq: u64) -> bool {
        (seq / 8) < bits.len() && bit_of(bits[(seq / 8) as int], seq % 8)
    }

    /// The sequences that are marked deleted.
    pub closed spec fn view(&self) -> Set<u64> {
        Set::new(|s: u64| Self::marked(self.bits@, s))
    }

    /// How many sequences the store can hold: eight per byte.
    pub closed spec fn capacity(&self) -> nat {
        (self.bits@.len() * 8) as nat
    }

    /// A store of `size_bytes` bytes with no mark set.
    pub fn new(size_bytes: usize) -> (r: Self)
        ensures
            r@ == Set::<u64>::empty(),
            r.capacity() == size_bytes * 8,
    {
        let bits = vec![0u8; size_bytes];
        let r = TombstoneStore { bits };
        assert forall|s: u64| !Self::marked(r.bits@, s) by {
            if (s / 8) < r.bits@.len() {
                let k = s % 8;
                assert((0u8 & (1u8 << (k as u8))) == 0) by (bit_vector);
            }
        }
        assert(r@ =~= Set::<u64>::empty());
        r
    }

    /// A store over the bytes of an existing bitset.
    pub fn from_bytes(bits: Vec<u8>) -> (r: Self)
        ensures
            r@ == Set::new(|s: u64| Self::marked(bits@, s)),
            r.capacity() == bits@.len() * 8,
    {
        TombstoneStore { bits }
    }

    /// The bytes of the bitset.
    pub fn as_bytes(&self) -> (r: &[u8])
        ensures
            Set::new(|s: u64| Self::marked(r@, s)) == self@,
            r@.len() * 8 == self.capacity(),
    {
        let r = self.bits.as_slice();
        assert(Set::new(|s: u64| Self::marked(r@, s)) =~= self@);
        r
    }

    /// Whether `seq` is marked deleted; a sequence beyond the capacity is not.
    pub fn is_deleted(&self, seq: u64) -> (r: bool)
        ensures
            r == self@.contains(seq),
    {
        let byte_idx = seq / 8;
        let bit_idx = seq % 8;
        if byte_idx >= self.bits.len() as u64 {
            return false;
        }
        let b = self.bits[byte_idx as usize];
        b & (1u8 << (bit_idx as u8)) != 0
    }

    /// Marks `seq` deleted. A sequence beyond the capacity is left unmarked.
    pub fn mark_deleted(&mut self, seq: u64)
        ensures
            final(self).capacity() == old(self).capacity(),
            (seq as nat) < old(self).capacity() ==> final(self)@ == old(self)@.insert(seq),
            (seq as nat) >= old(self).capacity() ==> final(self)@ == old(self)@,
    {
        let byte_idx = seq / 8;
        let bit_idx = seq % 8;
        if byte_idx >= self.bits.len() as u64 {
            return;
        }
        let i = byte_idx as usize;
        let old_b = self.bits[i];
        let k = bit_idx as u8;
        let new_b = old_b | (1u8 << k);
        self.bits.set(i, new_b);
        proof {
            assert forall|s: u64| #[trigger] Self::marked(self.bits@, s) == (Self::marked(old(self).bits@, s) || s == seq) by {
                if s / 8 == seq / 8 {
                    let j = (s % 8) as u8;
                    assert(j < 8 && k < 8);
                    assert(((old_b | (1u8 << k)) & (1u8 << j) != 0) == ((old_b & (1u8 << j) != 0) || j == k)) by (bit_vector)
                        requires j < 8u8, k < 8u8;
                    assert((s % 8 == seq % 8) ==> s == seq);
                }
            }
            assert(self@ =~= old(self)@.insert(seq));
        }
    }
}

} // verus!
