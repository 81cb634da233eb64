//! Chunks of a slice taken from its end toward its start; the last chunk
//! yielded may be shorter than the others.

use vstd::prelude::*;

verus! {

/// An iterator over chunks of `v` of length `size`, from the end of `v`
/// toward its start.
pub struct RChunksIter<'a, T> {
    v: &'a [T],
    size: usize,
    upper: usize,
    lower: usize,
}

/// `a - b`, or zero when `b` is larger.
pub open spec fn sat_sub(a: usize, b: usize) -> usize {
    if a >= b {
        (a - b) as usize
    } else {
        0
    }
}

impl<'a, T> RChunksIter<'a, T> {
    /// The chunks still to come end at `upper()`; the next one starts at `lower()`.
    pub open spec fn wf(&self) -> bool {
        &&& self.upper() <= self.slice().len()
        &&& self.lower() == sat_sub(self.upper(), self.chunk_size())
    }

    pub closed spec fn slice(&self) -> Seq<T> {
        self.v@
    }

    pub closed spec fn chunk_size(&self) -> usize {
        self.size
    }

    pub closed spec fn upper(&self) -> usize {
        self.upper
    }

    pub closed spec fn lower(&self) -> usize {
        self.lower
    }

    /// Chunks of `v` of length `size`, from its end.
    pub fn new(v: &'a [T], size: usize) -> (r: RChunksIter<'a, T>)
        ensures
            r.wf(),
            r.slice() == v@,
            r.chunk_size() == size,
            r.upper() == v@.len(),
    {
        let len = v.len();
        let lower = if len >= size {
            len - size
        } else {
            0
        };
        RChunksIter { v, size, upper: len, lower }
    }

    /// The next chunk toward the start of the slice, or `None` when the start
    /// has been reached.
    pub fn next(&mut self) -> (r: Option<&'a [T]>)
        requires
            old(self).wf(),
        ensures
            final(self).wf(),
            final(self).slice() == old(self).slice(),
            final(self).chunk_size() == old(self).chunk_size(),
            old(self).upper() == 0 ==> r.is_none() && final(self).upper() == 0,
            old(self).upper() > 0 ==> r.is_some() && r.unwrap()@ == old(self).slice().subrange(
                old(self).lower() as int,
                old(self).upper() as int,
            ) && final(self).upper() == old(self).lower(),
    {
        if self.upper == 0 {
            None
        } else {
            let upper = self.upper;
            let lower = self.lower;
            self.upper = lower;
            self.lower = if lower >= self.size {
                lower - self.size
            } else {
                0
            };
            let v = self.v;
            Some(&v[lower..upper])
        }
    }
}

/// Iteration over a slice by chunks from its end.
pub trait RChunks<T> {
    fn rchunks<'a>(&'a self, size: usize) -> (r: RChunksIter<'a, T>)
        ensures
            r.wf(),
            r.chunk_size() == size,
    ;
}

impl<'x, T> RChunks<T> for &'x [T] {
    fn rchunks<'a>(&'a self, size: usize) -> RChunksIter<'a, T> {
        RChunksIter::new(*self, size)
    }
}

} // verus!
