//! The byte buffer that backs a matrix: an aligned vector of the `aligned_vec`
//! crate, reached through a handful of trusted functions.
use aligned_vec::AVec;
use vstd::prelude::*;

verus! {

/// A byte buffer whose allocation starts on a cache-line boundary.
/// It holds an `aligned_vec::AVec<u8>`, which Verus does not look into.
#[verifier::external_body]
pub struct AlignedBytes {
    inner: AVec<u8>,
}

/// The bytes that a buffer holds, in order.
pub uninterp spec fn buffer_bytes(buf: AlignedBytes) -> Seq<u8>;

/// The alignments that the buffer's allocator takes: the powers of two up to
/// the size of a cache line.
pub open spec fn valid_alignment(align: usize) -> bool {
    align == 1 || align == 2 || align == 4 || align == 8 || align == 16 || align == 32 || align
        == 64 || align == 128
}

/// Calls `AVec::from_iter` on `len` zeros: the result holds `len` zero
/// bytes. The call allocates for `len` bytes at once; it panics on an
/// alignment that is no power of two or exceeds that of the vector's type,
/// and on a length above `isize::MAX`, and both are excluded here.
#[verifier::external_body]
pub(crate) fn zeroed_bytes(align: usize, len: usize) -> (buf: AlignedBytes)
    requires
        valid_alignment(align),
        len <= isize::MAX,
    ensures
        buffer_bytes(buf) == Seq::new(len as nat, |i: int| 0u8),
{
    AlignedBytes { inner: AVec::from_iter(align, core::iter::repeat(0u8).take(len)) }
}

/// Calls `AVec::new`, which allocates nothing: the result holds no bytes.
#[verifier::external_body]
pub(crate) fn empty_bytes() -> (buf: AlignedBytes)
    ensures
        buffer_bytes(buf) == Seq::<u8>::empty(),
{
    AlignedBytes { inner: AVec::new(0) }
}

/// Calls `AVec::as_slice`: the slice over the bytes held.
#[verifier::external_body]
pub(crate) fn bytes_as_slice(buf: &AlignedBytes) -> (s: &[u8])
    ensures
        s@ == buffer_bytes(*buf),
{
    buf.inner.as_slice()
}

/// Calls `AVec::as_mut_slice`: the mutable slice over the bytes held; what
/// is written through it is what the buffer holds afterwards.
#[verifier::external_body]
pub(crate) fn bytes_as_mut_slice(buf: &mut AlignedBytes) -> (s: &mut [u8])
    ensures
        s@ == buffer_bytes(*old(buf)),
        buffer_bytes(*final(buf)) == final(s)@,
{
    buf.inner.as_mut_slice()
}

} // verus!
