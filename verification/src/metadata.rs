use vstd::prelude::*;

verus! {

/// Where one element lies in the byte buffer: its first byte and its length.
#[derive(Clone, Copy)]
pub struct Metadata {
    pub start: usize,
    pub len: usize,
}

impl Metadata {
    /// One past the last byte of the element.
    pub open spec fn end(self) -> int {
        self.start + self.len
    }

    /// The element occupies no byte that `other` occupies.
    pub open spec fn disjoint(self, other: Metadata) -> bool {
        self.end() <= other.start || other.end() <= self.start
    }

    #[inline]
    pub fn new(start: usize, len: usize) -> (m: Self)
        ensures
            m.start == start,
            m.len == len,
    {
        Self { start, len }
    }

    #[inline]
    pub fn as_tuple(&self) -> (t: (usize, usize))
        ensures
            t.0 == self.start,
            t.1 == self.len,
    {
        (self.start, self.len)
    }
}

} // verus!
