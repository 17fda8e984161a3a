//! Bit fields: a `bitvec::vec::BitVec` and the bits it holds.

use bitvec::vec::BitVec;
use vstd::prelude::*;

verus! {

/// A bit field, held in a `bitvec::vec::BitVec`.
#[verifier::external_body]
pub struct Bitfield {
    inner: BitVec,
}

/// The bits that a bit field holds, first bit first.
pub uninterp spec fn bits_of(b: Bitfield) -> Seq<bool>;

/// The largest number of bits a bit vector can hold (`BitSlice::MAX_BITS`).
pub open spec fn max_bits() -> nat {
    (usize::MAX / 8) as nat
}

impl Bitfield {
    /// `BitVec::new`: an empty bit field.
    #[verifier::external_body]
    pub fn new() -> (r: Bitfield)
        ensures
            bits_of(r) == Seq::<bool>::empty(),
    {
        Bitfield { inner: BitVec::new() }
    }

    /// `BitVec::push`: appends a bit; the crate panics past `max_bits()`.
    #[verifier::external_body]
    pub fn push(&mut self, value: bool)
        requires
            bits_of(*old(self)).len() + 1 <= max_bits(),
        ensures
            bits_of(*final(self)) == bits_of(*old(self)).push(value),
    {
        self.inner.push(value)
    }

    /// `BitVec::len`: the number of bits, which a bit vector keeps within
    /// `max_bits()`.
    #[verifier::external_body]
    pub fn len(&self) -> (r: usize)
        ensures
            r == bits_of(*self).len(),
            r <= max_bits(),
    {
        self.inner.len()
    }

    /// `BitSlice::get` with a bit index: the bit at `index`.
    #[verifier::external_body]
    pub fn get(&self, index: usize) -> (r: bool)
        requires
            index < bits_of(*self).len(),
        ensures
            r == bits_of(*self)[index as int],
    {
        *self.inner.get(index).unwrap()
    }

    /// `BitSlice::set`: writes the bit at `index`; the crate panics when
    /// `index` is out of bounds.
    #[verifier::external_body]
    pub fn set(&mut self, index: usize, value: bool)
        requires
            index < bits_of(*old(self)).len(),
        ensures
            bits_of(*final(self)) == bits_of(*old(self)).update(index as int, value),
    {
        self.inner.set(index, value)
    }

    /// `BitVec::resize`: cuts the field to `new_len` bits or fills it up to
    /// `new_len` with `value`.
    #[verifier::external_body]
    pub fn resize(&mut self, new_len: usize, value: bool)
        requires
            new_len <= max_bits(),
        ensures
            bits_of(*final(self)).len() == new_len,
            forall|i: int|
                0 <= i < new_len ==> #[trigger] bits_of(*final(self))[i] == (if i < bits_of(
                    *old(self),
                ).len() {
                    bits_of(*old(self))[i]
                } else {
                    value
                }),
    {
        self.inner.resize(new_len, value)
    }

    /// `<BitVec as Clone>::clone`: a field with the same bits.
    #[verifier::external_body]
    pub fn duplicate(&self) -> (r: Bitfield)
        ensures
            bits_of(r) == bits_of(*self),
    {
        Bitfield { inner: self.inner.clone() }
    }

    /// Whether some bit is set.
    pub fn any(&self) -> (r: bool)
        ensures
            r == exists|i: int| 0 <= i < bits_of(*self).len() && bits_of(*self)[i],
    {
        let n = self.len();
        let mut i: usize = 0;
        while i < n
            invariant
                n == bits_of(*self).len(),
                0 <= i <= n,
                forall|j: int| 0 <= j < i ==> !bits_of(*self)[j],
            decreases n - i,
        {
            if self.get(i) {
                return true;
            }
            i = i + 1;
        }
        false
    }

    /// A field of `n` bits, all equal to `value`.
    pub fn filled(n: usize, value: bool) -> (r: Bitfield)
        requires
            n <= max_bits(),
        ensures
            bits_of(r) == Seq::new(n as nat, |i: int| value),
    {
        let mut b = Bitfield::new();
        b.resize(n, value);
        proof {
            assert(bits_of(b) =~= Seq::new(n as nat, |i: int| value));
        }
        b
    }
}

} // verus!
