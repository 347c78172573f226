//! The packed occupancy bitmap, kept in a `bv::BitVec`.
//!
//! Verus cannot look inside a `BitVec`. What the bitmap holds is named by
//! [`bits_view`], and each method of `BitVec` that the board calls is reached
//! through one function here whose contract is taken on trust from the
//! `bv` crate.

use vstd::prelude::*;
use bv::BitVec;

verus! {

/// A bitmap of the `bv` crate. Its bits are hidden from the verifier and
/// spoken of through [`bits_view`] alone.
#[verifier::external_body]
#[derive(Debug)]
pub struct Bitmap {
    bits: BitVec,
}

/// The bits that a bitmap holds, first position first.
pub uninterp spec fn bits_view(b: Bitmap) -> Seq<bool>;

/// `BitVec::new_fill(value, len)`: a bitmap of `len` bits, every one of them
/// `value`. The crate rounds the length up to whole blocks of the machine's
/// word size, so a length within a word's width of the largest index is
/// kept out.
#[verifier::external_body]
pub(crate) fn bits_new_fill(value: bool, len: u64) -> (b: Bitmap)
    requires
        len <= usize::MAX - 63,
    ensures
        bits_view(b).len() == len,
        forall|i: int| 0 <= i < len ==> bits_view(b)[i] == value,
{
    Bitmap { bits: BitVec::new_fill(value, len) }
}

/// `BitVec::get(position)`: the bit at `position`. The crate panics on a
/// position past the end, so the caller must stay within the length.
#[verifier::external_body]
pub(crate) fn bits_get(b: &Bitmap, position: u64) -> (bit: bool)
    requires
        position < bits_view(*b).len(),
    ensures
        bit == bits_view(*b)[position as int],
{
    b.bits.get(position)
}

/// `BitVec::set(position, value)`: overwrites the bit at `position` and leaves
/// every other bit and the length as they were.
#[verifier::external_body]
pub(crate) fn bits_set(b: &mut Bitmap, position: u64, value: bool)
    requires
        position < bits_view(*old(b)).len(),
    ensures
        bits_view(*final(b)) == bits_view(*old(b)).update(position as int, value),
{
    b.bits.set(position, value)
}

/// `<BitVec as Clone>::clone`: a bitmap with the same bits.
#[verifier::external_body]
pub(crate) fn bits_clone(b: &Bitmap) -> (c: Bitmap)
    ensures
        bits_view(c) == bits_view(*b),
{
    Bitmap { bits: b.bits.clone() }
}


} // verus!
