//! Fixed-capacity bitmap allocators for block numbers and inode numbers.
use vstd::prelude::*;
use bitmap_allocator::BitAlloc;

verus! {

/// A bitmap of `CAPACITY` bits, each free or used, kept by
/// `bitmap_allocator::BitAlloc1M`; Verus sees it through `free_bits` alone.
#[verifier::external_body]
pub struct Bitmap {
    bits: Box<bitmap_allocator::BitAlloc1M>,
}

/// Number of bits that one bitmap holds: 2^20. A `BitAlloc1M` is built on
/// the stack and then boxed; the larger bitmaps of the crate (2^28 bits is
/// over 32 MB) cannot be built that way without overflowing the stack, and
/// building them in place would need `unsafe` code.
pub const CAPACITY: usize = 1048576;

/// The set of indices that a bitmap marks free.
pub uninterp spec fn free_bits(b: Bitmap) -> Set<int>;

/// Whether all of `t..t + size` is free in `free`.
pub open spec fn run_free(free: Set<int>, t: int, size: int) -> bool {
    range_set(t, t + size).subset_of(free)
}

pub open spec fn range_set(start: int, end: int) -> Set<int> {
    Set::new(|i: int| start <= i < end)
}

/// Relies on `BitAlloc::DEFAULT`: a bitmap in which no bit is free.
#[verifier::external_body]
fn bitmap_empty() -> (r: Bitmap)
    ensures
        free_bits(r) == Set::<int>::empty(),
{
    Bitmap { bits: Box::new(bitmap_allocator::BitAlloc1M::DEFAULT) }
}

/// Relies on `BitAlloc::insert`: marks the bits of `start..end` free.
#[verifier::external_body]
fn bitmap_insert(b: &mut Bitmap, start: usize, end: usize)
    requires
        start < end <= CAPACITY,
    ensures
        free_bits(*final(b)) == free_bits(*old(b)).union(range_set(start as int, end as int)),
{
    b.bits.insert(start..end)
}

/// Relies on `BitAlloc::remove`: marks the bits of `start..end` used.
#[verifier::external_body]
fn bitmap_remove(b: &mut Bitmap, start: usize, end: usize)
    requires
        start < end <= CAPACITY,
    ensures
        free_bits(*final(b)) == free_bits(*old(b)).difference(range_set(start as int, end as int)),
{
    b.bits.remove(start..end)
}

/// Relies on `BitAlloc::test`: whether a bit is free.
#[verifier::external_body]
fn bitmap_test(b: &Bitmap, key: usize) -> (r: bool)
    requires
        key < CAPACITY,
    ensures
        r == free_bits(*b).contains(key as int),
{
    b.bits.test(key)
}

/// Relies on `BitAlloc::alloc`: takes the lowest free bit, if there is one.
#[verifier::external_body]
fn bitmap_alloc(b: &mut Bitmap) -> (r: Option<usize>)
    ensures
        match r {
            Some(i) => {
                &&& free_bits(*old(b)).contains(i as int)
                &&& i < CAPACITY
                &&& free_bits(*final(b)) == free_bits(*old(b)).remove(i as int)
            },
            None => {
                &&& free_bits(*old(b)) == Set::<int>::empty()
                &&& free_bits(*final(b)) == free_bits(*old(b))
            },
        },
{
    b.bits.alloc()
}

/// Relies on `BitAlloc::alloc_contiguous` (no base, no alignment): takes the
/// first run of `size` free bits, if there is one.
#[verifier::external_body]
fn bitmap_alloc_contiguous(b: &mut Bitmap, size: usize) -> (r: Option<usize>)
    requires
        size > 0,
    ensures
        match r {
            Some(s) => {
                &&& s + size <= CAPACITY
                &&& range_set(s as int, s + size).subset_of(free_bits(*old(b)))
                &&& forall|t: int| 0 <= t < s ==> !#[trigger] run_free(free_bits(*old(b)), t, size as int)
                &&& free_bits(*final(b)) == free_bits(*old(b)).difference(range_set(s as int, s + size))
            },
            None => {
                &&& forall|t: int| 0 <= t && t + size <= CAPACITY ==> !#[trigger] run_free(free_bits(*old(b)), t, size as int)
                &&& free_bits(*final(b)) == free_bits(*old(b))
            },
        },
{
    b.bits.alloc_contiguous(None, size, 0)
}

/// Relies on `BitAlloc::dealloc`: marks one bit free.
#[verifier::external_body]
fn bitmap_dealloc(b: &mut Bitmap, key: usize)
    requires
        key < CAPACITY,
    ensures
        free_bits(*final(b)) == free_bits(*old(b)).insert(key as int),
{
    b.bits.dealloc(key);
}

} // verus!

verus! {

/// A fixed-capacity allocator of indices in `0..CAPACITY`.
pub struct Allocator {
    bits: Bitmap,
}

impl Allocator {
    /// The indices that are free to hand out.
    pub closed spec fn free(&self) -> Set<int> {
        free_bits(self.bits)
    }

    /// An allocator whose free indices are exactly `start..end`.
    pub fn new(start: usize, end: usize) -> (r: Allocator)
        requires
            start < end <= CAPACITY,
        ensures
            r.free() == range_set(start as int, end as int),
    {
        let mut bits = bitmap_empty();
        bitmap_insert(&mut bits, start, end);
        proof {
            assert(Set::<int>::empty().union(range_set(start as int, end as int)) =~= range_set(
                start as int,
                end as int,
            ));
        }
        Allocator { bits }
    }

    /// Whether `index` is free.
    pub fn is_free(&self, index: usize) -> (r: bool)
        requires
            index < CAPACITY,
        ensures
            r == self.free().contains(index as int),
    {
        bitmap_test(&self.bits, index)
    }

    /// Takes a free index; `None` when nothing is free.
    pub fn alloc_one(&mut self) -> (r: Option<usize>)
        ensures
            match r {
                Some(i) => {
                    &&& old(self).free().contains(i as int)
                    &&& i < CAPACITY
                    &&& final(self).free() == old(self).free().remove(i as int)
                },
                None => old(self).free() == Set::<int>::empty() && final(self).free() == old(self).free(),
            },
    {
        bitmap_alloc(&mut self.bits)
    }

    /// Takes the first run of `n` free indices and returns its start;
    /// `None`, with nothing changed, when no such run exists.
    pub fn alloc_contiguous(&mut self, n: usize) -> (r: Option<usize>)
        requires
            n > 0,
        ensures
            match r {
                Some(s) => {
                    &&& s + n <= CAPACITY
                    &&& run_free(old(self).free(), s as int, n as int)
                    &&& forall|t: int| 0 <= t < s ==> !#[trigger] run_free(old(self).free(), t, n as int)
                    &&& final(self).free() == old(self).free().difference(range_set(s as int, s + n))
                },
                None => {
                    &&& forall|t: int|
                        0 <= t && t + n <= CAPACITY ==> !#[trigger] run_free(old(self).free(), t, n as int)
                    &&& final(self).free() == old(self).free()
                },
            },
    {
        bitmap_alloc_contiguous(&mut self.bits, n)
    }

    /// Returns one index to the free set.
    pub fn free_one(&mut self, index: usize)
        requires
            index < CAPACITY,
        ensures
            final(self).free() == old(self).free().insert(index as int),
    {
        bitmap_dealloc(&mut self.bits, index)
    }

    /// Returns `lo..hi` to the free set; an empty range changes nothing.
    pub fn free_range(&mut self, lo: usize, hi: usize)
        requires
            lo <= hi <= CAPACITY,
        ensures
            final(self).free() == old(self).free().union(range_set(lo as int, hi as int)),
    {
        if lo < hi {
            bitmap_insert(&mut self.bits, lo, hi);
        } else {
            assert(old(self).free().union(range_set(lo as int, hi as int)) =~= old(self).free());
        }
    }

    /// Marks `lo..hi` used; an empty range changes nothing.
    pub fn mark_used(&mut self, lo: usize, hi: usize)
        requires
            lo <= hi <= CAPACITY,
        ensures
            final(self).free() == old(self).free().difference(range_set(lo as int, hi as int)),
    {
        if lo < hi {
            bitmap_remove(&mut self.bits, lo, hi);
        } else {
            assert(old(self).free().difference(range_set(lo as int, hi as int)) =~= old(self).free());
        }
    }
}

} // verus!
