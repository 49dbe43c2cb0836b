use vstd::prelude::*;

verus! {

/// Files larger than this many bytes are memory-mapped.
pub const MMAP_THRESHOLD: u64 = 10_000_000;

/// Should a file of `size` bytes be memory-mapped?
pub fn uses_mmap(size: u64) -> (r: bool)
    ensures
        r == (size > MMAP_THRESHOLD),
{
    size > MMAP_THRESHOLD
}

/// Does the byte range `start .. start + length` lie within a file of
/// `size` bytes?
pub fn range_fits(start: usize, length: usize, size: u64) -> (r: bool)
    ensures
        r == (start + length <= size),
{
    (start as u128) + (length as u128) <= size as u128
}

} // verus!
