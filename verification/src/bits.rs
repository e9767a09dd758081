//! Bit vectors of the `bitvec` crate, as this library uses them: a sequence of
//! booleans of fixed length in which single bits are written and the set bits
//! are listed.

use vstd::prelude::*;
use bitvec::order::Lsb0;
use bitvec::vec::BitVec;

verus! {

/// A bit vector of the `bitvec` crate: `BitVec<usize, Lsb0>`. What it holds
/// is known to the verifier only through `bits_of`.
#[verifier::external_body]
pub struct Bits {
    inner: BitVec<usize, Lsb0>,
}

/// The bits that a bit vector holds, first to last.
pub uninterp spec fn bits_of(b: Bits) -> Seq<bool>;

impl Bits {
    /// The bits held, first to last.
    pub open spec fn view(&self) -> Seq<bool> {
        bits_of(*self)
    }
}

/// The largest number of bits that a bit vector can hold: an eighth of the
/// address space.
pub open spec fn max_bits() -> nat {
    (usize::MAX as nat) / 8
}

/// The positions of the bits of `bits` that are set, in ascending order.
pub open spec fn ones(bits: Seq<bool>) -> Seq<int>
    decreases bits.len(),
{
    if bits.len() == 0 {
        Seq::empty()
    } else if bits.last() {
        ones(bits.drop_last()).push(bits.len() - 1)
    } else {
        ones(bits.drop_last())
    }
}

/// `BitVec::repeat`: a new bit vector of `len` bits, all equal to `bit`. The
/// call panics for a length above `usize::MAX >> 3`, which `requires` leaves out.
#[verifier::external_body]
pub(crate) fn repeat(bit: bool, len: usize) -> (r: Bits)
    requires
        len <= max_bits(),
    ensures
        bits_of(r) == Seq::new(len as nat, |i: int| bit),
{
    Bits { inner: BitVec::repeat(bit, len) }
}

/// `BitSlice::set`: writes `value` into the bit at `index` and leaves the
/// other bits alone. The call panics when `index` is out of bounds, which
/// `requires` leaves out.
#[verifier::external_body]
pub(crate) fn set(b: &mut Bits, index: usize, value: bool)
    requires
        index < bits_of(*old(b)).len(),
    ensures
        bits_of(*final(b)) == bits_of(*old(b)).update(index as int, value),
{
    b.inner.set(index, value)
}

/// `BitSlice::replace`: writes `value` into the bit at `index`, leaves the
/// other bits alone and returns what the bit held before. The call panics when
/// `index` is out of bounds, which `requires` leaves out.
#[verifier::external_body]
pub(crate) fn replace(b: &mut Bits, index: usize, value: bool) -> (was: bool)
    requires
        index < bits_of(*old(b)).len(),
    ensures
        was == bits_of(*old(b))[index as int],
        bits_of(*final(b)) == bits_of(*old(b)).update(index as int, value),
{
    b.inner.replace(index, value)
}

/// `BitSlice::iter_ones`: the index of each set bit, in ascending order,
/// collected into a vector.
#[verifier::external_body]
pub(crate) fn iter_ones(b: &Bits) -> (r: Vec<usize>)
    ensures
        r@.len() == ones(bits_of(*b)).len(),
        forall|k: int| 0 <= k < r@.len() ==> #[trigger] r@[k] as int == ones(bits_of(*b))[k],
{
    b.inner.iter_ones().collect()
}

/// `BitVec::clone`: a bit vector of its own with the same bits.
#[verifier::external_body]
pub(crate) fn copy(b: &Bits) -> (r: Bits)
    ensures
        bits_of(r) == bits_of(*b),
{
    Bits { inner: b.inner.clone() }
}

} // verus!
