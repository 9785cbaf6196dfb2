//! Axis projection: shape-reduced windows into a host array.
//!
//! A view fixes some axes of a host shape at chosen offsets and leaves the
//! rest free.  Its model is a mask, one slot per host axis: a fixed slot
//! carries its offset, a free slot carries nothing.  The view's own shape
//! lists the extents of the free axes in order, and a view position is
//! carried to a host position by filling the free slots with its
//! coordinates, in order.  Projecting an axis of a view fixes one more
//! slot, so views compose: axis numbering always refers to the current
//! reduced shape.

use crate::array::Array;
use crate::shape::capacity_of;
use crate::shape::duplicate;
use crate::shape::in_bounds;
use crate::shape::index_of;
use crate::shape::index_to_position;
use crate::shape::lemma_index_lt_capacity;
use crate::shape::position_of;
use crate::shape::subd;
use vstd::arithmetic::mul::lemma_mul_inequality;
use vstd::prelude::*;
use vstd::view::View as _;

verus! {

/// Whether `mask` matches `extents` slot for slot, every fixed offset
/// lying below its extent.
pub open spec fn mask_wf(extents: Seq<usize>, mask: Seq<Option<usize>>) -> bool {
    &&& mask.len() == extents.len()
    &&& forall|i: int|
        0 <= i < mask.len() ==> ((#[trigger] mask[i]) matches Some(o) ==> o < extents[i])
}

/// How many slots of `mask` are free.
pub open spec fn free_count(mask: Seq<Option<usize>>) -> nat
    decreases mask.len(),
{
    if mask.len() == 0 {
        0
    } else {
        (if mask[0] is None {
            1nat
        } else {
            0nat
        }) + free_count(mask.drop_first())
    }
}

/// The reduced shape: the extents of the axes `mask` leaves free, in
/// order.
pub open spec fn free_extents(extents: Seq<usize>, mask: Seq<Option<usize>>) -> Seq<usize>
    decreases mask.len(),
{
    if mask.len() == 0 || extents.len() == 0 {
        Seq::empty()
    } else if mask[0] is None {
        seq![extents[0]] + free_extents(extents.drop_first(), mask.drop_first())
    } else {
        free_extents(extents.drop_first(), mask.drop_first())
    }
}

/// The host position reached from view position `q`: fixed slots take
/// their offsets, free slots take the coordinates of `q` in order.
pub open spec fn host_position(mask: Seq<Option<usize>>, q: Seq<usize>) -> Seq<usize>
    decreases mask.len(),
{
    if mask.len() == 0 {
        Seq::empty()
    } else {
        match mask[0] {
            Some(o) => seq![o] + host_position(mask.drop_first(), q),
            None => seq![q[0]] + host_position(mask.drop_first(), q.drop_first()),
        }
    }
}

/// A mask with every slot free.
pub open spec fn all_free(n: nat) -> Seq<Option<usize>> {
    Seq::new(n, |i: int| None)
}

/// The free count splits over any cut of the mask.
pub proof fn lemma_free_count_split(mask: Seq<Option<usize>>, i: int)
    requires
        0 <= i <= mask.len(),
    ensures
        free_count(mask) == free_count(mask.take(i)) + free_count(mask.skip(i)),
    decreases i,
{
    if i == 0 {
        assert(mask.take(0) =~= Seq::<Option<usize>>::empty());
        assert(mask.skip(0) =~= mask);
    } else {
        let tail = mask.drop_first();
        lemma_free_count_split(tail, i - 1);
        assert(mask.take(i).drop_first() =~= tail.take(i - 1));
        assert(mask.skip(i) =~= tail.skip(i - 1));
        assert(mask.take(i)[0] == mask[0]);
    }
}

/// The reduced shape has one extent per free slot.
pub proof fn lemma_free_extents_len(extents: Seq<usize>, mask: Seq<Option<usize>>)
    requires
        mask.len() == extents.len(),
    ensures
        free_extents(extents, mask).len() == free_count(mask),
    decreases mask.len(),
{
    if mask.len() == 0 {
    } else {
        lemma_free_extents_len(extents.drop_first(), mask.drop_first());
    }
}

/// Bounds of a one-longer shape and position, split at the head.
proof fn lemma_in_bounds_cons(e0: usize, etail: Seq<usize>, p0: usize, ptail: Seq<usize>)
    ensures
        in_bounds(seq![e0] + etail, seq![p0] + ptail) <==> (p0 < e0 && in_bounds(etail, ptail)),
{
    let e = seq![e0] + etail;
    let p = seq![p0] + ptail;
    assert(e[0] == e0 && p[0] == p0);
    assert(forall|i: int| 1 <= i < e.len() ==> e[i] == etail[i - 1]);
    assert(forall|i: int| 1 <= i < p.len() ==> p[i] == ptail[i - 1]);
    if p0 < e0 && in_bounds(etail, ptail) {
        assert forall|i: int| 0 <= i < e.len() implies p[i] < (#[trigger] e[i]) by {
            if i >= 1 {
                assert(ptail[i - 1] < etail[i - 1]);
            }
        }
    }
    if in_bounds(e, p) {
        assert forall|i: int| 0 <= i < etail.len() implies ptail[i] < (#[trigger] etail[i]) by {
            assert(p[i + 1] < e[i + 1]);
        }
    }
}

/// The tails of a well-formed mask and its extents stay well formed.
proof fn lemma_mask_wf_tail(extents: Seq<usize>, mask: Seq<Option<usize>>)
    requires
        mask_wf(extents, mask),
        mask.len() > 0,
    ensures
        mask_wf(extents.drop_first(), mask.drop_first()),
{
    let etail = extents.drop_first();
    let mtail = mask.drop_first();
    assert forall|i: int|
        0 <= i < mtail.len() implies ((#[trigger] mtail[i]) matches Some(o) ==> o
        < etail[i]) by {
        assert(mtail[i] == mask[i + 1]);
        assert(etail[i] == extents[i + 1]);
    }
}

/// A view position is in bounds of the reduced shape exactly when the
/// host position it reaches is in bounds of the host shape.
pub proof fn lemma_host_in_bounds(extents: Seq<usize>, mask: Seq<Option<usize>>, q: Seq<usize>)
    requires
        mask_wf(extents, mask),
        q.len() == free_count(mask),
    ensures
        in_bounds(free_extents(extents, mask), q) <==> in_bounds(extents, host_position(mask, q)),
    decreases mask.len(),
{
    if mask.len() == 0 {
    } else {
        let e0 = extents[0];
        let etail = extents.drop_first();
        let mtail = mask.drop_first();
        lemma_mask_wf_tail(extents, mask);
        assert(extents =~= seq![e0] + etail);
        match mask[0] {
            Some(o) => {
                lemma_host_in_bounds(etail, mtail, q);
                let hp2 = host_position(mtail, q);
                assert(host_position(mask, q) == seq![o] + hp2);
                lemma_in_bounds_cons(e0, etail, o, hp2);
                assert(o < e0);
            },
            None => {
                let qtail = q.drop_first();
                lemma_host_in_bounds(etail, mtail, qtail);
                let hp2 = host_position(mtail, qtail);
                assert(host_position(mask, q) == seq![q[0]] + hp2);
                lemma_in_bounds_cons(e0, etail, q[0], hp2);
                assert(q =~= seq![q[0]] + qtail);
                lemma_in_bounds_cons(e0, free_extents(etail, mtail), q[0], qtail);
                assert(free_extents(extents, mask) == seq![e0] + free_extents(etail, mtail));
            },
        }
    }
}

/// The reduced shape lists, at the free index of a free slot, exactly
/// that slot's host extent.
pub proof fn lemma_free_slot_extent(extents: Seq<usize>, mask: Seq<Option<usize>>, j: int)
    requires
        mask.len() == extents.len(),
        0 <= j < mask.len(),
        mask[j] is None,
    ensures
        free_count(mask.take(j)) < free_extents(extents, mask).len(),
        free_extents(extents, mask)[free_count(mask.take(j)) as int] == extents[j],
    decreases j,
{
    lemma_free_extents_len(extents, mask);
    if j == 0 {
        assert(mask.take(0) =~= Seq::<Option<usize>>::empty());
    } else {
        let etail = extents.drop_first();
        let mtail = mask.drop_first();
        lemma_free_slot_extent(etail, mtail, j - 1);
        assert(mask.take(j).drop_first() =~= mtail.take(j - 1));
        assert(mask.take(j)[0] == mask[0]);
    }
}

/// Fixing a free slot deletes its extent from the reduced shape.
pub proof fn lemma_update_free_extents(
    extents: Seq<usize>,
    mask: Seq<Option<usize>>,
    j: int,
    o: usize,
)
    requires
        mask.len() == extents.len(),
        0 <= j < mask.len(),
        mask[j] is None,
    ensures
        free_extents(extents, mask.update(j, Some(o))) == free_extents(extents, mask).remove(
            free_count(mask.take(j)) as int,
        ),
    decreases j,
{
    lemma_free_slot_extent(extents, mask, j);
    let m2 = mask.update(j, Some(o));
    let etail = extents.drop_first();
    let mtail = mask.drop_first();
    if j == 0 {
        assert(mask.take(0) =~= Seq::<Option<usize>>::empty());
        assert(m2.drop_first() =~= mtail);
        assert((seq![extents[0]] + free_extents(etail, mtail)).remove(0) =~= free_extents(
            etail,
            mtail,
        ));
    } else {
        lemma_update_free_extents(etail, mtail, j - 1, o);
        lemma_free_slot_extent(etail, mtail, j - 1);
        assert(m2.drop_first() =~= mtail.update(j - 1, Some(o)));
        assert(mask.take(j).drop_first() =~= mtail.take(j - 1));
        assert(mask.take(j)[0] == mask[0]);
        assert(m2[0] == mask[0]);
        match mask[0] {
            Some(_) => {},
            None => {
                let front = free_extents(etail, mtail);
                let k2 = free_count(mtail.take(j - 1)) as int;
                assert((seq![extents[0]] + front).remove(1 + k2) =~= seq![extents[0]]
                    + front.remove(k2));
            },
        }
    }
}

/// Fixing a free slot at offset `o` turns a view position into the same
/// host position that the longer view position with `o` inserted at the
/// slot's free index reached before.
pub proof fn lemma_update_host_position(
    mask: Seq<Option<usize>>,
    j: int,
    o: usize,
    q: Seq<usize>,
)
    requires
        0 <= j < mask.len(),
        mask[j] is None,
        free_count(mask.take(j)) <= q.len(),
    ensures
        host_position(mask.update(j, Some(o)), q) == host_position(
            mask,
            q.insert(free_count(mask.take(j)) as int, o),
        ),
    decreases j,
{
    let m2 = mask.update(j, Some(o));
    let k = free_count(mask.take(j)) as int;
    let mtail = mask.drop_first();
    if j == 0 {
        assert(mask.take(0) =~= Seq::<Option<usize>>::empty());
        assert(m2.drop_first() =~= mtail);
        assert(q.insert(0, o)[0] == o);
        assert(q.insert(0, o).drop_first() =~= q);
    } else {
        assert(mask.take(j).drop_first() =~= mtail.take(j - 1));
        assert(mask.take(j)[0] == mask[0]);
        assert(m2.drop_first() =~= mtail.update(j - 1, Some(o)));
        assert(m2[0] == mask[0]);
        match mask[0] {
            Some(_) => {
                lemma_update_host_position(mtail, j - 1, o, q);
            },
            None => {
                lemma_update_host_position(mtail, j - 1, o, q.drop_first());
                assert(q.insert(k, o)[0] == q[0]);
                assert(q.insert(k, o).drop_first() =~= q.drop_first().insert(k - 1, o));
            },
        }
    }
}

/// A reduced shape holds no more items than its host shape.
pub proof fn lemma_free_capacity_le(extents: Seq<usize>, mask: Seq<Option<usize>>)
    requires
        mask_wf(extents, mask),
    ensures
        capacity_of(free_extents(extents, mask)) <= capacity_of(extents),
    decreases mask.len(),
{
    if mask.len() == 0 {
    } else {
        let e0 = extents[0] as nat;
        let etail = extents.drop_first();
        let mtail = mask.drop_first();
        lemma_mask_wf_tail(extents, mask);
        lemma_free_capacity_le(etail, mtail);
        match mask[0] {
            Some(o) => {
                assert(o < extents[0]);
                assert(capacity_of(etail) <= e0 * capacity_of(etail)) by (nonlinear_arith)
                    requires
                        e0 >= 1,
                ;
            },
            None => {
                let front = free_extents(etail, mtail);
                assert((seq![extents[0]] + front).drop_first() =~= front);
                assert((seq![extents[0]] + front)[0] == extents[0]);
                assert(capacity_of(seq![extents[0]] + front) == e0 * capacity_of(front));
                lemma_mul_inequality(
                    capacity_of(front) as int,
                    capacity_of(etail) as int,
                    e0 as int,
                );
                assert(e0 * capacity_of(front) <= e0 * capacity_of(etail)) by (nonlinear_arith)
                    requires
                        capacity_of(front) <= capacity_of(etail),
                ;
            },
        }
    }
}

/// A mask with every slot free leaves the whole shape free and carries
/// every view position to itself.
pub proof fn lemma_all_free_extents(extents: Seq<usize>)
    ensures
        free_count(all_free(extents.len())) == extents.len(),
        free_extents(extents, all_free(extents.len())) == extents,
    decreases extents.len(),
{
    if extents.len() == 0 {
        assert(free_extents(extents, all_free(extents.len())) =~= extents);
    } else {
        lemma_all_free_extents(extents.drop_first());
        assert(all_free(extents.len()).drop_first() =~= all_free(extents.drop_first().len()));
        assert(free_extents(extents, all_free(extents.len())) =~= extents);
    }
}

/// A mask with every slot free carries every position to itself.
pub proof fn lemma_all_free_host_position(q: Seq<usize>)
    ensures
        host_position(all_free(q.len()), q) == q,
    decreases q.len(),
{
    if q.len() == 0 {
        assert(host_position(all_free(q.len()), q) =~= q);
    } else {
        lemma_all_free_host_position(q.drop_first());
        assert(all_free(q.len()).drop_first() =~= all_free(q.drop_first().len()));
        assert(host_position(all_free(q.len()), q) =~= q);
    }
}

/// How many slots of `mask` are free.
fn count_free(mask: &Vec<Option<usize>>) -> (r: usize)
    ensures
        r == free_count(mask@),
{
    let n = mask.len();
    let mut acc: usize = 0;
    let mut i: usize = n;
    proof {
        assert(mask@.skip(n as int) =~= Seq::<Option<usize>>::empty());
    }
    while i > 0
        invariant
            i <= n,
            n == mask@.len(),
            acc == free_count(mask@.skip(i as int)),
            acc <= n - i,
        decreases i,
    {
        i -= 1;
        proof {
            assert(mask@.skip(i as int).drop_first() =~= mask@.skip(i as int + 1));
            assert(mask@.skip(i as int)[0] == mask@[i as int]);
        }
        if mask[i].is_none() {
            acc += 1;
        }
    }
    proof {
        assert(mask@.skip(0) =~= mask@);
    }
    acc
}

/// The extents of the free axes, in order.
fn reduced_shape(extents: &Vec<usize>, mask: &Vec<Option<usize>>) -> (r: Vec<usize>)
    requires
        mask@.len() == extents@.len(),
    ensures
        r@ == free_extents(extents@, mask@),
{
    let n = mask.len();
    let mut out: Vec<usize> = Vec::new();
    let mut i: usize = 0;
    proof {
        assert(extents@.skip(0) =~= extents@);
        assert(mask@.skip(0) =~= mask@);
        assert(out@ + free_extents(extents@, mask@) =~= free_extents(extents@, mask@));
    }
    while i < n
        invariant
            i <= n,
            n == mask@.len(),
            mask@.len() == extents@.len(),
            free_extents(extents@, mask@) == out@ + free_extents(
                extents@.skip(i as int),
                mask@.skip(i as int),
            ),
        decreases n - i,
    {
        proof {
            assert(extents@.skip(i as int).drop_first() =~= extents@.skip(i as int + 1));
            assert(mask@.skip(i as int).drop_first() =~= mask@.skip(i as int + 1));
            assert(mask@.skip(i as int)[0] == mask@[i as int]);
            assert(extents@.skip(i as int)[0] == extents@[i as int]);
            if mask@[i as int] is None {
                assert(out@ + free_extents(extents@.skip(i as int), mask@.skip(i as int))
                    =~= out@.push(extents@[i as int]) + free_extents(
                    extents@.skip(i as int + 1),
                    mask@.skip(i as int + 1),
                ));
            }
        }
        if mask[i].is_none() {
            out.push(extents[i]);
        }
        i += 1;
    }
    proof {
        assert(extents@.skip(n as int) =~= Seq::<usize>::empty());
        assert(mask@.skip(n as int) =~= Seq::<Option<usize>>::empty());
        assert(out@ + Seq::<usize>::empty() =~= out@);
    }
    out
}

/// The host position reached from `position`: fixed slots take their
/// offsets, free slots take the coordinates of `position` in order.
fn to_host_position(mask: &Vec<Option<usize>>, position: &Vec<usize>) -> (r: Vec<usize>)
    requires
        position@.len() == free_count(mask@),
    ensures
        r@ == host_position(mask@, position@),
{
    let n = mask.len();
    let mut out: Vec<usize> = Vec::new();
    let mut qi: usize = 0;
    let mut i: usize = 0;
    proof {
        assert(mask@.skip(0) =~= mask@);
        assert(position@.skip(0) =~= position@);
        assert(out@ + host_position(mask@, position@) =~= host_position(mask@, position@));
    }
    while i < n
        invariant
            i <= n,
            n == mask@.len(),
            position@.len() == free_count(mask@),
            qi <= position@.len(),
            qi + free_count(mask@.skip(i as int)) == position@.len(),
            host_position(mask@, position@) == out@ + host_position(
                mask@.skip(i as int),
                position@.skip(qi as int),
            ),
        decreases n - i,
    {
        proof {
            assert(mask@.skip(i as int).drop_first() =~= mask@.skip(i as int + 1));
            assert(mask@.skip(i as int)[0] == mask@[i as int]);
        }
        let slot = mask[i];
        match slot {
            Some(o) => {
                proof {
                    assert(out@ + host_position(mask@.skip(i as int), position@.skip(qi as int))
                        =~= out@.push(o) + host_position(
                        mask@.skip(i as int + 1),
                        position@.skip(qi as int),
                    ));
                }
                out.push(o);
            },
            None => {
                proof {
                    assert(free_count(mask@.skip(i as int)) >= 1);
                    assert(position.len() <= usize::MAX);
                    assert(qi < position@.len());
                    assert(position@.skip(qi as int)[0] == position@[qi as int]);
                    assert(position@.skip(qi as int).drop_first() =~= position@.skip(
                        qi as int + 1,
                    ));
                    assert(out@ + host_position(mask@.skip(i as int), position@.skip(qi as int))
                        =~= out@.push(position@[qi as int]) + host_position(
                        mask@.skip(i as int + 1),
                        position@.skip(qi as int + 1),
                    ));
                }
                let c = position[qi];
                out.push(c);
                qi += 1;
            },
        }
        i += 1;
    }
    proof {
        assert(mask@.skip(n as int) =~= Seq::<Option<usize>>::empty());
        assert(position@.skip(qi as int) =~= Seq::<usize>::empty());
        assert(out@ + Seq::<usize>::empty() =~= out@);
    }
    out
}

/// The mask slot of the `axis`-th free axis, or nothing when the mask
/// leaves fewer axes free.
fn find_free_slot(mask: &Vec<Option<usize>>, axis: usize) -> (r: Option<usize>)
    ensures
        ((axis as nat) < free_count(mask@)) <==> r is Some,
        r matches Some(j) ==> j < mask@.len() && mask@[j as int] is None && free_count(
            mask@.take(j as int),
        ) == axis,
{
    let n = mask.len();
    let mut i: usize = 0;
    let mut seen: usize = 0;
    proof {
        assert(mask@.skip(0) =~= mask@);
    }
    while i < n
        invariant
            i <= n,
            n == mask@.len(),
            seen <= axis,
            seen + free_count(mask@.skip(i as int)) == free_count(mask@),
        decreases n - i,
    {
        proof {
            assert(mask@.skip(i as int).drop_first() =~= mask@.skip(i as int + 1));
            assert(mask@.skip(i as int)[0] == mask@[i as int]);
        }
        if mask[i].is_none() {
            if seen == axis {
                proof {
                    lemma_free_count_split(mask@, i as int);
                    assert(free_count(mask@.skip(i as int)) >= 1);
                }
                return Some(i);
            }
            seen += 1;
        }
        i += 1;
    }
    proof {
        assert(mask@.skip(n as int) =~= Seq::<Option<usize>>::empty());
    }
    None
}

/// A shared, shape-reduced window into a host array: each host axis is
/// either fixed at an offset or left free.  The view stores no items;
/// reads go through the host array it was projected from, which the
/// caller passes back in.  Any number of views of one host may be read
/// at the same time.
pub struct View {
    host_extents: Vec<usize>,
    mask: Vec<Option<usize>>,
}

impl View {
    /// The host shape's extents.
    pub closed spec fn host_dims(&self) -> Seq<usize> {
        self.host_extents@
    }

    /// The mask: one slot per host axis, fixed offset or free.
    pub closed spec fn fixed(&self) -> Seq<Option<usize>> {
        self.mask@
    }

    /// The reduced shape this view exposes.
    pub open spec fn reduced(&self) -> Seq<usize> {
        free_extents(self.host_dims(), self.fixed())
    }

    /// The mask matches the host shape, and the host capacity fits the
    /// machine's index range.
    pub open spec fn wf(&self) -> bool {
        &&& mask_wf(self.host_dims(), self.fixed())
        &&& capacity_of(self.host_dims()) <= usize::MAX
    }

    /// Whether this view is a projection of `host`.
    pub open spec fn projects<T>(&self, host: &Array<T>) -> bool {
        self.host_dims() == host.extents()
    }

    /// A fresh copy of the reduced shape's extents.
    pub fn shape(&self) -> (r: Vec<usize>)
        requires
            self.wf(),
        ensures
            r@ == self.reduced(),
    {
        reduced_shape(&self.host_extents, &self.mask)
    }

    /// The item of `host` that view position `position` reaches, or
    /// nothing exactly when the host lookup fails: a coordinate out of
    /// range, or a position length differing from the view's shape.
    pub fn item<'a, T>(&self, host: &'a Array<T>, position: &Vec<usize>) -> (r: Option<&'a T>)
        requires
            self.wf(),
            host.wf(),
            self.projects(host),
        ensures
            in_bounds(self.reduced(), position@) ==> (r matches Some(v) && *v == host.contents()[
                index_of(host.extents(), host_position(self.fixed(), position@)) as int
            ]),
            !in_bounds(self.reduced(), position@) ==> r is None,
    {
        let nfree = count_free(&self.mask);
        proof {
            lemma_free_extents_len(self.host_dims(), self.fixed());
        }
        if position.len() != nfree {
            return None;
        }
        let hp = to_host_position(&self.mask, position);
        proof {
            lemma_host_in_bounds(self.host_dims(), self.fixed(), position@);
        }
        host.item(&hp)
    }

    /// Projects one more axis of the reduced shape at `offset`, composing
    /// the two projections, or nothing when `axis` or `offset` is out of
    /// range.  Axis numbering refers to the reduced shape.
    pub fn axis(&self, axis: usize, offset: usize) -> (r: Option<View>)
        requires
            self.wf(),
        ensures
            r is Some <==> ((axis as int) < self.reduced().len() && offset < self.reduced()[
                axis as int
            ]),
            r matches Some(v) ==> {
                &&& v.wf()
                &&& v.host_dims() == self.host_dims()
                &&& v.reduced() == self.reduced().remove(axis as int)
                &&& forall|q: Seq<usize>|
                    (axis as int) <= q.len() ==> #[trigger] host_position(v.fixed(), q)
                        == host_position(self.fixed(), q.insert(axis as int, offset))
            },
    {
        proof {
            lemma_free_extents_len(self.host_dims(), self.fixed());
        }
        match find_free_slot(&self.mask, axis) {
            None => None,
            Some(j) => {
                proof {
                    lemma_free_slot_extent(self.host_dims(), self.fixed(), j as int);
                }
                if offset >= self.host_extents[j] {
                    return None;
                }
                let mut mask2 = duplicate(&self.mask);
                mask2[j] = Some(offset);
                let v = View { host_extents: duplicate(&self.host_extents), mask: mask2 };
                proof {
                    lemma_update_free_extents(self.host_dims(), self.fixed(), j as int, offset);
                    assert forall|i: int|
                        0 <= i < v.fixed().len() implies ((#[trigger] v.fixed()[i]) matches Some(
                        o,
                    ) ==> o < v.host_dims()[i]) by {
                        if i != j {
                            assert(v.fixed()[i] == self.fixed()[i]);
                        }
                    }
                    assert forall|q: Seq<usize>| (axis as int) <= q.len() implies #[trigger]
                    host_position(v.fixed(), q) == host_position(
                        self.fixed(),
                        q.insert(axis as int, offset),
                    ) by {
                        lemma_update_host_position(self.fixed(), j as int, offset, q);
                    }
                }
                Some(v)
            },
        }
    }

    /// A fresh lazy iterator over every item of the view, visiting
    /// positions in increasing reduced-shape linear-index order.
    pub fn iter(&self) -> (r: Iter)
        requires
            self.wf(),
        ensures
            r.host_dims() == self.host_dims(),
            r.fixed() == self.fixed(),
            r.cursor() == 0,
            r.wf(),
    {
        Iter::new(self)
    }
}

/// The projection of `host` that fixes nothing: every axis stays free.
fn full_view<T>(host: &Array<T>) -> (r: View)
    requires
        host.wf(),
    ensures
        r.wf(),
        r.host_dims() == host.extents(),
        r.fixed() == all_free(host.extents().len()),
{
    let extents = host.shape();
    let n = extents.len();
    let mut mask: Vec<Option<usize>> = Vec::new();
    let mut i: usize = 0;
    while i < n
        invariant
            i <= n,
            mask@.len() == i,
            forall|t: int| 0 <= t < i ==> (#[trigger] mask@[t]) is None,
        decreases n - i,
    {
        mask.push(None);
        i += 1;
    }
    proof {
        assert(mask@ =~= all_free(extents@.len()));
    }
    View { host_extents: extents, mask }
}

impl<T> Array<T> {
    /// A shared view fixing `axis` at `offset`, its shape the host shape
    /// with that axis detached, or nothing exactly when `axis` or
    /// `offset` is out of range.
    pub fn axis(&self, axis: usize, offset: usize) -> (r: Option<View>)
        requires
            self.wf(),
        ensures
            r is Some <==> ((axis as int) < self.extents().len() && offset < self.extents()[
                axis as int
            ]),
            r matches Some(v) ==> {
                &&& v.wf()
                &&& v.projects(self)
                &&& v.reduced() == self.extents().remove(axis as int)
                &&& forall|q: Seq<usize>|
                    q.len() + 1 == self.extents().len() ==> #[trigger] host_position(v.fixed(), q)
                        == q.insert(axis as int, offset)
            },
    {
        let base = full_view(self);
        proof {
            lemma_all_free_extents(self.extents());
        }
        match base.axis(axis, offset) {
            None => None,
            Some(v) => {
                proof {
                    assert forall|q: Seq<usize>|
                        q.len() + 1 == self.extents().len() implies #[trigger] host_position(
                        v.fixed(),
                        q,
                    ) == q.insert(axis as int, offset) by {
                        let longer = q.insert(axis as int, offset);
                        assert(host_position(v.fixed(), q) == host_position(base.fixed(), longer));
                        lemma_all_free_host_position(longer);
                    }
                }
                Some(v)
            },
        }
    }
}

/// An exclusive, shape-reduced window into a host array: the same
/// projection as a shared view, with item-level writes.  The view stores
/// no items; every access goes through the host array it was projected
/// from, which the caller passes back in, exclusively for writes.  While
/// items of one host are written through a view, no other reads or
/// writes of that host may run.
pub struct ViewMut {
    host_extents: Vec<usize>,
    mask: Vec<Option<usize>>,
}

impl ViewMut {
    /// The host shape's extents.
    pub closed spec fn host_dims(&self) -> Seq<usize> {
        self.host_extents@
    }

    /// The mask: one slot per host axis, fixed offset or free.
    pub closed spec fn fixed(&self) -> Seq<Option<usize>> {
        self.mask@
    }

    /// The reduced shape this view exposes.
    pub open spec fn reduced(&self) -> Seq<usize> {
        free_extents(self.host_dims(), self.fixed())
    }

    /// The mask matches the host shape, and the host capacity fits the
    /// machine's index range.
    pub open spec fn wf(&self) -> bool {
        &&& mask_wf(self.host_dims(), self.fixed())
        &&& capacity_of(self.host_dims()) <= usize::MAX
    }

    /// Whether this view is a projection of `host`.
    pub open spec fn projects<T>(&self, host: &Array<T>) -> bool {
        self.host_dims() == host.extents()
    }

    /// The same projection as a shared view.
    fn as_view(&self) -> (r: View)
        ensures
            r.host_dims() == self.host_dims(),
            r.fixed() == self.fixed(),
    {
        View { host_extents: duplicate(&self.host_extents), mask: duplicate(&self.mask) }
    }

    /// A fresh copy of the reduced shape's extents.
    pub fn shape(&self) -> (r: Vec<usize>)
        requires
            self.wf(),
        ensures
            r@ == self.reduced(),
    {
        reduced_shape(&self.host_extents, &self.mask)
    }

    /// The item of `host` that view position `position` reaches, or
    /// nothing exactly when the host lookup fails.
    pub fn item<'a, T>(&self, host: &'a Array<T>, position: &Vec<usize>) -> (r: Option<&'a T>)
        requires
            self.wf(),
            host.wf(),
            self.projects(host),
        ensures
            in_bounds(self.reduced(), position@) ==> (r matches Some(v) && *v == host.contents()[
                index_of(host.extents(), host_position(self.fixed(), position@)) as int
            ]),
            !in_bounds(self.reduced(), position@) ==> r is None,
    {
        let nfree = count_free(&self.mask);
        proof {
            lemma_free_extents_len(self.host_dims(), self.fixed());
        }
        if position.len() != nfree {
            return None;
        }
        let hp = to_host_position(&self.mask, position);
        proof {
            lemma_host_in_bounds(self.host_dims(), self.fixed(), position@);
        }
        host.item(&hp)
    }

    /// Exclusive access to the item of `host` that view position
    /// `position` reaches, or nothing exactly when the host lookup
    /// fails, the host then left unchanged.
    pub fn item_mut<'a, T>(&self, host: &'a mut Array<T>, position: &Vec<usize>) -> (r: Option<
        &'a mut T,
    >)
        requires
            self.wf(),
            old(host).wf(),
            self.projects(&*old(host)),
        ensures
            in_bounds(self.reduced(), position@) ==> (r matches Some(v) && *v == old(
                host,
            ).contents()[
                index_of(old(host).extents(), host_position(self.fixed(), position@)) as int
            ] && final(host).contents() == old(host).contents().update(
                index_of(old(host).extents(), host_position(self.fixed(), position@)) as int,
                *final(v),
            ) && final(host).extents() == old(host).extents() && final(host).wf()),
            !in_bounds(self.reduced(), position@) ==> (r is None && *final(host) == *old(host)),
    {
        let nfree = count_free(&self.mask);
        proof {
            lemma_free_extents_len(self.host_dims(), self.fixed());
        }
        if position.len() != nfree {
            return None;
        }
        let hp = to_host_position(&self.mask, position);
        proof {
            lemma_host_in_bounds(self.host_dims(), self.fixed(), position@);
        }
        host.item_mut(&hp)
    }

    /// Projects one more axis of the reduced shape at `offset`, composing
    /// the two projections, or nothing when `axis` or `offset` is out of
    /// range.  Axis numbering refers to the reduced shape.
    pub fn axis_mut(&self, axis: usize, offset: usize) -> (r: Option<ViewMut>)
        requires
            self.wf(),
        ensures
            r is Some <==> ((axis as int) < self.reduced().len() && offset < self.reduced()[
                axis as int
            ]),
            r matches Some(v) ==> {
                &&& v.wf()
                &&& v.host_dims() == self.host_dims()
                &&& v.reduced() == self.reduced().remove(axis as int)
                &&& forall|q: Seq<usize>|
                    (axis as int) <= q.len() ==> #[trigger] host_position(v.fixed(), q)
                        == host_position(self.fixed(), q.insert(axis as int, offset))
            },
    {
        match self.as_view().axis(axis, offset) {
            None => None,
            Some(v) => Some(ViewMut { host_extents: v.host_extents, mask: v.mask }),
        }
    }

    /// A fresh lazy iterator reading every item of the view through a
    /// shared borrow of the host.
    pub fn iter(&self) -> (r: Iter)
        requires
            self.wf(),
        ensures
            r.host_dims() == self.host_dims(),
            r.fixed() == self.fixed(),
            r.cursor() == 0,
            r.wf(),
    {
        Iter { src: self.as_view(), index: 0 }
    }

    /// A fresh lazy iterator giving exclusive access to every item of
    /// the view, one at a time, through the host.
    pub fn iter_mut(&self) -> (r: IterMut)
        requires
            self.wf(),
        ensures
            r.host_dims() == self.host_dims(),
            r.fixed() == self.fixed(),
            r.cursor() == 0,
            r.wf(),
    {
        IterMut::new(self)
    }
}

impl<T> Array<T> {
    /// An exclusive view fixing `axis` at `offset`, its shape the host
    /// shape with that axis detached, or nothing exactly when `axis` or
    /// `offset` is out of range.
    pub fn axis_mut(&self, axis: usize, offset: usize) -> (r: Option<ViewMut>)
        requires
            self.wf(),
        ensures
            r is Some <==> ((axis as int) < self.extents().len() && offset < self.extents()[
                axis as int
            ]),
            r matches Some(v) ==> {
                &&& v.wf()
                &&& v.projects(self)
                &&& v.reduced() == self.extents().remove(axis as int)
                &&& forall|q: Seq<usize>|
                    q.len() + 1 == self.extents().len() ==> #[trigger] host_position(v.fixed(), q)
                        == q.insert(axis as int, offset)
            },
    {
        match self.axis(axis, offset) {
            None => None,
            Some(v) => Some(ViewMut { host_extents: v.host_extents, mask: v.mask }),
        }
    }
}

/// A lazy, restartable iterator over the items of a shared view, in
/// increasing reduced-shape linear-index order.  Each step reads through
/// the host array the view was projected from.
pub struct Iter {
    src: View,
    index: usize,
}

impl Iter {
    /// The host shape's extents of the underlying view.
    pub closed spec fn host_dims(&self) -> Seq<usize> {
        self.src.host_dims()
    }

    /// The mask of the underlying view.
    pub closed spec fn fixed(&self) -> Seq<Option<usize>> {
        self.src.fixed()
    }

    /// The reduced shape being iterated.
    pub open spec fn reduced(&self) -> Seq<usize> {
        free_extents(self.host_dims(), self.fixed())
    }

    /// The reduced-shape linear index of the next item to yield.
    pub closed spec fn cursor(&self) -> nat {
        self.index as nat
    }

    /// The underlying view is well formed.
    pub open spec fn wf(&self) -> bool {
        &&& mask_wf(self.host_dims(), self.fixed())
        &&& capacity_of(self.host_dims()) <= usize::MAX
    }

    /// A fresh iterator over `src`, starting at linear index `0`.
    pub fn new(src: &View) -> (r: Iter)
        requires
            src.wf(),
        ensures
            r.host_dims() == src.host_dims(),
            r.fixed() == src.fixed(),
            r.cursor() == 0,
            r.wf(),
    {
        Iter { src: View { host_extents: duplicate(&src.host_extents), mask: duplicate(&src.mask) }, index: 0 }
    }

    /// The next item of the view, read through `host`, or nothing once
    /// every position of the reduced shape has been visited.
    pub fn next<'a, T>(&mut self, host: &'a Array<T>) -> (r: Option<&'a T>)
        requires
            old(self).wf(),
            host.wf(),
            old(self).host_dims() == host.extents(),
        ensures
            final(self).host_dims() == old(self).host_dims(),
            final(self).fixed() == old(self).fixed(),
            final(self).wf(),
            old(self).cursor() < capacity_of(old(self).reduced()) ==> {
                &&& r matches Some(v)
                &&& *v == host.contents()[index_of(
                    host.extents(),
                    host_position(
                        old(self).fixed(),
                        position_of(old(self).reduced(), old(self).cursor()),
                    ),
                ) as int]
                &&& final(self).cursor() == old(self).cursor() + 1
            },
            old(self).cursor() >= capacity_of(old(self).reduced()) ==> {
                &&& r is None
                &&& final(self).cursor() == old(self).cursor()
            },
    {
        let rshape = self.src.shape();
        proof {
            lemma_free_capacity_le(self.host_dims(), self.fixed());
        }
        let capacity = subd(&rshape, rshape.len());
        if self.index >= capacity {
            return None;
        }
        match index_to_position(&rshape, self.index) {
            None => None,
            Some(q) => {
                self.index = self.index + 1;
                self.src.item(host, &q)
            },
        }
    }
}

/// A lazy, restartable iterator over the items of an exclusive view, in
/// increasing reduced-shape linear-index order.  Each step hands out
/// exclusive access to one item through the host array.
pub struct IterMut {
    src: ViewMut,
    index: usize,
}

impl IterMut {
    /// The host shape's extents of the underlying view.
    pub closed spec fn host_dims(&self) -> Seq<usize> {
        self.src.host_dims()
    }

    /// The mask of the underlying view.
    pub closed spec fn fixed(&self) -> Seq<Option<usize>> {
        self.src.fixed()
    }

    /// The reduced shape being iterated.
    pub open spec fn reduced(&self) -> Seq<usize> {
        free_extents(self.host_dims(), self.fixed())
    }

    /// The reduced-shape linear index of the next item to yield.
    pub closed spec fn cursor(&self) -> nat {
        self.index as nat
    }

    /// The underlying view is well formed.
    pub open spec fn wf(&self) -> bool {
        &&& mask_wf(self.host_dims(), self.fixed())
        &&& capacity_of(self.host_dims()) <= usize::MAX
    }

    /// A fresh iterator over `src`, starting at linear index `0`.
    pub fn new(src: &ViewMut) -> (r: IterMut)
        requires
            src.wf(),
        ensures
            r.host_dims() == src.host_dims(),
            r.fixed() == src.fixed(),
            r.cursor() == 0,
            r.wf(),
    {
        IterMut {
            src: ViewMut {
                host_extents: duplicate(&src.host_extents),
                mask: duplicate(&src.mask),
            },
            index: 0,
        }
    }

    /// Exclusive access to the next item of the view through `host`, or
    /// nothing once every position of the reduced shape has been
    /// visited, the host then left unchanged.
    pub fn next<'a, T>(&mut self, host: &'a mut Array<T>) -> (r: Option<&'a mut T>)
        requires
            old(self).wf(),
            old(host).wf(),
            old(self).host_dims() == old(host).extents(),
        ensures
            final(self).host_dims() == old(self).host_dims(),
            final(self).fixed() == old(self).fixed(),
            final(self).wf(),
            old(self).cursor() < capacity_of(old(self).reduced()) ==> {
                &&& r matches Some(v)
                &&& *v == old(host).contents()[index_of(
                    old(host).extents(),
                    host_position(
                        old(self).fixed(),
                        position_of(old(self).reduced(), old(self).cursor()),
                    ),
                ) as int]
                &&& final(host).contents() == old(host).contents().update(
                    index_of(
                        old(host).extents(),
                        host_position(
                            old(self).fixed(),
                            position_of(old(self).reduced(), old(self).cursor()),
                        ),
                    ) as int,
                    *final(v),
                )
                &&& final(host).extents() == old(host).extents()
                &&& final(host).wf()
                &&& final(self).cursor() == old(self).cursor() + 1
            },
            old(self).cursor() >= capacity_of(old(self).reduced()) ==> {
                &&& r is None
                &&& *final(host) == *old(host)
                &&& final(self).cursor() == old(self).cursor()
            },
    {
        let rshape = self.src.shape();
        proof {
            lemma_free_capacity_le(self.host_dims(), self.fixed());
        }
        let capacity = subd(&rshape, rshape.len());
        if self.index >= capacity {
            return None;
        }
        match index_to_position(&rshape, self.index) {
            None => None,
            Some(q) => {
                self.index = self.index + 1;
                self.src.item_mut(host, &q)
            },
        }
    }
}

/// A single-axis projection is the attach-axis relation: the view of
/// `axis` at `offset` exposes the host shape with that axis detached,
/// and carries each view position `q` to `q` with `offset` inserted at
/// slot `axis`, in bounds on one side exactly when in bounds on the
/// other.  Reading through such a view therefore equals reading the
/// host at the attached position.
pub proof fn lemma_single_axis_view(extents: Seq<usize>, axis: int, offset: usize, q: Seq<usize>)
    requires
        0 <= axis < extents.len(),
        offset < extents[axis],
        q.len() + 1 == extents.len(),
    ensures
        free_extents(extents, all_free(extents.len()).update(axis, Some(offset)))
            == extents.remove(axis),
        host_position(all_free(extents.len()).update(axis, Some(offset)), q) == q.insert(
            axis,
            offset,
        ),
        in_bounds(extents.remove(axis), q) <==> in_bounds(extents, q.insert(axis, offset)),
{
    let m0 = all_free(extents.len());
    let m2 = m0.update(axis, Some(offset));
    lemma_all_free_extents(extents);
    assert(m0.take(axis) =~= all_free(extents.take(axis).len()));
    lemma_all_free_extents(extents.take(axis));
    assert(free_count(m0.take(axis)) == axis);
    lemma_update_free_extents(extents, m0, axis, offset);
    lemma_update_host_position(m0, axis, offset, q);
    lemma_all_free_host_position(q.insert(axis, offset));
    assert(mask_wf(extents, m2)) by {
        assert forall|i: int|
            0 <= i < m2.len() implies ((#[trigger] m2[i]) matches Some(o) ==> o
            < extents[i]) by {}
    }
    lemma_free_extents_len(extents, m2);
    lemma_host_in_bounds(extents, m2, q);
}

/// Writing through a single-axis view and then reading the host at the
/// attached position observes the written value, and no other item of
/// the host moves.
pub proof fn lemma_axis_write_visible<T>(
    contents: Seq<T>,
    extents: Seq<usize>,
    axis: int,
    offset: usize,
    q: Seq<usize>,
    value: T,
)
    requires
        contents.len() == capacity_of(extents),
        0 <= axis < extents.len(),
        offset < extents[axis],
        q.len() + 1 == extents.len(),
        in_bounds(extents.remove(axis), q),
    ensures
        ({
            let p = q.insert(axis, offset);
            let written = contents.update(
                index_of(
                    extents,
                    host_position(all_free(extents.len()).update(axis, Some(offset)), q),
                ) as int,
                value,
            );
            &&& in_bounds(extents, p)
            &&& written[index_of(extents, p) as int] == value
            &&& forall|j: int|
                0 <= j < contents.len() && j != index_of(extents, p) ==> written[j] == contents[j]
        }),
{
    lemma_single_axis_view(extents, axis, offset, q);
    lemma_index_lt_capacity(extents, q.insert(axis, offset));
}

} // verus!
