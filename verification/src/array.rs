//! The array: one flat, dense, row-major buffer plus its shape.

use crate::shape::capacity_of;
use crate::shape::duplicate;
use crate::shape::in_bounds;
use crate::shape::index_of;
use crate::shape::lemma_index_lt_capacity;
use crate::shape::position_to_index;
use crate::shape::subd;
use vstd::prelude::*;

verus! {

/// A fixed-shape multi-dimensional array: a shape and one flat buffer
/// holding the items in row-major order, one per position of the shape.
pub struct Array<T> {
    extents: Vec<usize>,
    items: Vec<T>,
}

impl<T> Array<T> {
    /// The extents of the array's shape.
    pub closed spec fn extents(&self) -> Seq<usize> {
        self.extents@
    }

    /// The items in row-major order.
    pub closed spec fn contents(&self) -> Seq<T> {
        self.items@
    }

    /// The buffer holds exactly one item per position of the shape, so
    /// the capacity also fits the machine's index range.
    pub open spec fn wf(&self) -> bool {
        &&& self.contents().len() == capacity_of(self.extents())
        &&& capacity_of(self.extents()) <= usize::MAX
    }

    /// An array of shape `extents` holding `items` in row-major order.
    pub fn new(extents: Vec<usize>, items: Vec<T>) -> (r: Array<T>)
        requires
            items@.len() == capacity_of(extents@),
        ensures
            r.extents() == extents@,
            r.contents() == items@,
            r.wf(),
    {
        proof {
            assert(items.len() <= usize::MAX);
        }
        Array { extents, items }
    }

    /// An array of shape `extents` with every item set to `value`.
    pub fn filled(extents: Vec<usize>, value: T) -> (r: Array<T>) where T: Copy
        requires
            capacity_of(extents@) <= usize::MAX,
        ensures
            r.extents() == extents@,
            r.wf(),
            forall|i: int| 0 <= i < r.contents().len() ==> r.contents()[i] == value,
    {
        let n = subd(&extents, extents.len());
        let mut items: Vec<T> = Vec::new();
        let mut i: usize = 0;
        while i < n
            invariant
                i <= n,
                items@.len() == i,
                forall|j: int| 0 <= j < i ==> items@[j] == value,
            decreases n - i,
        {
            items.push(value);
            i += 1;
        }
        Array { extents, items }
    }

    /// The flat row-major buffer, with the shape dropped.
    pub fn into_inner(self) -> (r: Vec<T>)
        ensures
            r@ == self.contents(),
    {
        self.items
    }

    /// A fresh copy of the shape's extents.
    pub fn shape(&self) -> (r: Vec<usize>)
        ensures
            r@ == self.extents(),
    {
        duplicate(&self.extents)
    }

    /// The item at `position`, or nothing when a coordinate is out of
    /// range or the position's length differs from the shape's.
    pub fn item(&self, position: &Vec<usize>) -> (r: Option<&T>)
        requires
            self.wf(),
        ensures
            in_bounds(self.extents(), position@) ==> (r matches Some(v) && *v == self.contents()[
                index_of(self.extents(), position@) as int
            ]),
            !in_bounds(self.extents(), position@) ==> r is None,
    {
        proof {
            assert(self.items.len() <= usize::MAX);
        }
        match position_to_index(&self.extents, position) {
            Some(i) => {
                proof {
                    lemma_index_lt_capacity(self.extents@, position@);
                }
                Some(&self.items[i])
            },
            None => None,
        }
    }

    /// Exclusive access to the item at `position`, or nothing when a
    /// coordinate is out of range or the position's length differs from
    /// the shape's.
    pub fn item_mut<'a>(&'a mut self, position: &Vec<usize>) -> (r: Option<&'a mut T>)
        requires
            old(self).wf(),
        ensures
            in_bounds(old(self).extents(), position@) ==> (r matches Some(v) && *v == old(
                self,
            ).contents()[index_of(old(self).extents(), position@) as int] && final(self).contents()
                == old(self).contents().update(
                index_of(old(self).extents(), position@) as int,
                *final(v),
            ) && final(self).extents() == old(self).extents() && final(self).wf()),
            !in_bounds(old(self).extents(), position@) ==> (r is None && *final(self) == *old(
                self,
            )),
    {
        proof {
            assert(self.items.len() <= usize::MAX);
        }
        match position_to_index(&self.extents, position) {
            Some(i) => {
                proof {
                    lemma_index_lt_capacity(self.extents@, position@);
                }
                Some(&mut self.items[i])
            },
            None => None,
        }
    }
}

} // verus!
