//! Lazy enumeration of every position of a shape.

use crate::shape::capacity_of;
use crate::shape::in_bounds;
use crate::shape::index_to_position;
use crate::shape::position_of;
use crate::shape::subd;
use vstd::prelude::*;

verus! {

/// A restartable enumerator over every position of one shape, yielded in
/// increasing row-major linear-index order.  A fresh enumerator over the
/// same shape restarts the sequence from the beginning.
pub struct Positions {
    cursor: usize,
    shape: Vec<usize>,
}

impl Positions {
    /// The shape being enumerated.
    pub closed spec fn shape(&self) -> Seq<usize> {
        self.shape@
    }

    /// The linear index of the next position to yield.
    pub closed spec fn cursor(&self) -> nat {
        self.cursor as nat
    }

    /// The enumerator stays usable while the shape's capacity fits the
    /// machine's index range.
    pub open spec fn wf(&self) -> bool {
        capacity_of(self.shape()) <= usize::MAX
    }

    /// A fresh enumerator over `shape`, starting at linear index `0`.
    pub fn new(shape: Vec<usize>) -> (r: Positions)
        requires
            capacity_of(shape@) <= usize::MAX,
        ensures
            r.shape() == shape@,
            r.cursor() == 0,
            r.wf(),
    {
        Positions { cursor: 0, shape }
    }

    /// The next position in row-major order, or nothing once every
    /// position of the shape has been yielded.  Never revisits or skips a
    /// linear index.
    pub fn next(&mut self) -> (r: Option<Vec<usize>>)
        requires
            old(self).wf(),
        ensures
            final(self).wf(),
            final(self).shape() == old(self).shape(),
            old(self).cursor() < capacity_of(old(self).shape()) ==> {
                &&& r matches Some(p)
                &&& p@ == position_of(old(self).shape(), old(self).cursor())
                &&& in_bounds(old(self).shape(), p@)
                &&& final(self).cursor() == old(self).cursor() + 1
            },
            old(self).cursor() >= capacity_of(old(self).shape()) ==> {
                &&& r is None
                &&& final(self).cursor() == old(self).cursor()
            },
    {
        let capacity = subd(&self.shape, self.shape.len());
        if self.cursor >= capacity {
            return None;
        }
        let r = index_to_position(&self.shape, self.cursor);
        self.cursor = self.cursor + 1;
        r
    }
}

} // verus!
