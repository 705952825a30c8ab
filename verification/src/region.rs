use vstd::prelude::*;

use crate::pow2::is_pow2;

verus! {

/// A contiguous range of memory, given by its starting offset and its size.
#[derive(Copy, Clone, Debug, PartialEq, Eq)]
pub struct Region {
    pub offset: usize,
    pub size: usize,
}

impl Region {
    /// Creates a region starting at `offset` spanning `size` bytes.
    pub fn new(offset: usize, size: usize) -> (r: Self)
        ensures
            r.offset == offset,
            r.size == size,
    {
        Self { offset, size }
    }

    /// The first byte of the region.
    pub fn start(&self) -> (r: usize)
        ensures
            r == self.offset,
    {
        self.offset
    }

    /// One past the last byte of the region.
    pub fn end(&self) -> (r: usize)
        requires
            self.offset + self.size <= usize::MAX,
        ensures
            r == self.offset + self.size,
    {
        self.offset + self.size
    }

    /// Two regions share at least one byte.
    pub open spec fn overlaps(self, other: Region) -> bool {
        self.offset < other.offset + other.size && other.offset < self.offset + self.size
    }

    /// The region lies completely inside `outer`.
    pub open spec fn within(self, outer: Region) -> bool {
        outer.offset <= self.offset && self.offset + self.size <= outer.offset + outer.size
    }
}

/// Size and alignment of a requested memory block.
///
/// The alignment is a power of two and the size, rounded up to the alignment, fits in
/// `isize`.
#[derive(Copy, Clone, Debug, PartialEq, Eq)]
pub struct Layout {
    size: usize,
    align: usize,
}

impl Layout {
    /// Which size/alignment pairs form a valid layout.
    pub open spec fn valid(size: int, align: int) -> bool {
        &&& is_pow2(align)
        &&& size + align - 1 <= isize::MAX
    }

    pub closed spec fn size_spec(self) -> usize {
        self.size
    }

    pub closed spec fn align_spec(self) -> usize {
        self.align
    }

    #[verifier::type_invariant]
    spec fn inv(self) -> bool {
        Self::valid(self.size as int, self.align as int)
    }

    /// Creates a layout, or `None` when `align` is not a power of two or the rounded size
    /// does not fit in `isize`.
    pub fn from_size_align(size: usize, align: usize) -> (r: Option<Self>)
        ensures
            r.is_some() == Self::valid(size as int, align as int),
            r matches Some(l) ==> l.size_spec() == size && l.align_spec() == align,
    {
        if !crate::pow2::is_power_of_two(align) {
            return None;
        }
        if align - 1 > isize::MAX as usize || size > isize::MAX as usize - (align - 1) {
            return None;
        }
        Some(Self { size, align })
    }

    /// The number of bytes requested.
    pub fn size(&self) -> (r: usize)
        ensures
            r == self.size_spec(),
            Self::valid(self.size_spec() as int, self.align_spec() as int),
    {
        proof {
            use_type_invariant(self);
        }
        self.size
    }

    /// The required alignment of the first byte.
    pub fn align(&self) -> (r: usize)
        ensures
            r == self.align_spec(),
            Self::valid(self.size_spec() as int, self.align_spec() as int),
    {
        proof {
            use_type_invariant(self);
        }
        self.align
    }
}

} // verus!
