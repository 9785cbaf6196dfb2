//! Shape arithmetic: extents, positions, and row-major linear indices.
//!
//! A shape is an ordered list of extents, one per dimension; a position is a
//! same-length list of coordinates.  The linear index of a position is the
//! row-major offset where the first-listed axis varies fastest: axis `i` has
//! stride equal to the product of the extents before it.

use crate::positions::Positions;
use vstd::arithmetic::div_mod::lemma_fundamental_div_mod;
use vstd::arithmetic::div_mod::lemma_fundamental_div_mod_converse_div;
use vstd::arithmetic::div_mod::lemma_fundamental_div_mod_converse_mod;
use vstd::arithmetic::mul::lemma_mul_inequality;
use vstd::arithmetic::mul::lemma_mul_is_associative;
use vstd::prelude::*;

verus! {

/// The number of items a shape holds: the product of its extents.
/// An empty shape holds exactly one item.
pub open spec fn capacity_of(extents: Seq<usize>) -> nat
    decreases extents.len(),
{
    if extents.len() == 0 {
        1
    } else {
        (extents[0] as nat) * capacity_of(extents.drop_first())
    }
}

/// Whether every coordinate of `position` lies below the matching extent.
pub open spec fn in_bounds(extents: Seq<usize>, position: Seq<usize>) -> bool {
    &&& position.len() == extents.len()
    &&& forall|i: int| 0 <= i < extents.len() ==> position[i] < (#[trigger] extents[i])
}

/// The row-major linear index of `position` within `extents`: the sum of
/// each coordinate times the product of the extents before its axis.
pub open spec fn index_of(extents: Seq<usize>, position: Seq<usize>) -> nat
    decreases extents.len(),
{
    if extents.len() == 0 {
        0
    } else {
        (position[0] as nat) + (extents[0] as nat) * index_of(
            extents.drop_first(),
            position.drop_first(),
        )
    }
}

/// The position whose row-major linear index within `extents` is `index`:
/// the mixed-radix digits of `index`, least significant first.  Meaningful
/// only below the capacity; a zero extent, under which no index is valid,
/// ends the recursion early.
pub open spec fn position_of(extents: Seq<usize>, index: nat) -> Seq<usize>
    decreases extents.len(),
{
    if extents.len() == 0 || extents[0] == 0 {
        Seq::empty()
    } else {
        seq![(index % (extents[0] as nat)) as usize] + position_of(
            extents.drop_first(),
            index / (extents[0] as nat),
        )
    }
}

/// The stride of axis `dim`: the product of the first `dim` extents, all of
/// them when `dim` reaches past the end.
pub open spec fn subd_of(extents: Seq<usize>, dim: int) -> nat {
    if dim >= extents.len() {
        capacity_of(extents)
    } else if dim < 0 {
        1
    } else {
        capacity_of(extents.take(dim))
    }
}

/// A capacity splits as the product of the capacities of any prefix and the
/// matching suffix.
pub proof fn lemma_capacity_split(extents: Seq<usize>, i: int)
    requires
        0 <= i <= extents.len(),
    ensures
        capacity_of(extents) == capacity_of(extents.take(i)) * capacity_of(extents.skip(i)),
    decreases i,
{
    if i == 0 {
        assert(extents.take(0) =~= Seq::<usize>::empty());
        assert(extents.skip(0) =~= extents);
        assert(capacity_of(extents) == 1 * capacity_of(extents));
    } else {
        let e0 = extents[0] as nat;
        let tail = extents.drop_first();
        let front = capacity_of(tail.take(i - 1));
        let back = capacity_of(tail.skip(i - 1));
        lemma_capacity_split(tail, i - 1);
        assert(capacity_of(extents) == e0 * (front * back));
        assert(extents.take(i).drop_first() =~= tail.take(i - 1));
        assert(extents.skip(i) =~= tail.skip(i - 1));
        assert(extents.take(i).len() != 0);
        assert(extents.take(i)[0] == extents[0]);
        assert(capacity_of(extents.take(i)) == e0 * front);
        assert(e0 * (front * back) == (e0 * front) * back) by {
            lemma_mul_is_associative(e0 as int, front as int, back as int);
        }
        assert(capacity_of(extents) == capacity_of(extents.take(i)) * back);
    }
}

/// A shape with a zero extent holds no items.
pub proof fn lemma_capacity_zero(extents: Seq<usize>, i: int)
    requires
        0 <= i < extents.len(),
        extents[i] == 0,
    ensures
        capacity_of(extents) == 0,
    decreases i,
{
    if i == 0 {
    } else {
        lemma_capacity_zero(extents.drop_first(), i - 1);
    }
}

/// A shape whose extents are all positive holds at least one item.
pub proof fn lemma_capacity_positive(extents: Seq<usize>)
    requires
        forall|i: int| 0 <= i < extents.len() ==> (#[trigger] extents[i]) > 0,
    ensures
        capacity_of(extents) > 0,
    decreases extents.len(),
{
    if extents.len() == 0 {
    } else {
        let tail = extents.drop_first();
        assert(forall|i: int| 0 <= i < tail.len() ==> (#[trigger] tail[i]) > 0) by {
            assert(forall|i: int| 0 <= i < tail.len() ==> tail[i] == extents[i + 1]);
        }
        lemma_capacity_positive(tail);
        assert((extents[0] as nat) * capacity_of(tail) > 0) by (nonlinear_arith)
            requires
                extents[0] > 0,
                capacity_of(tail) > 0,
        ;
    }
}

/// A positive capacity forces every extent to be positive.
pub proof fn lemma_capacity_positive_extents(extents: Seq<usize>, i: int)
    requires
        capacity_of(extents) > 0,
        0 <= i < extents.len(),
    ensures
        extents[i] > 0,
{
    if extents[i] == 0 {
        lemma_capacity_zero(extents, i);
    }
}

/// The linear index of an in-bounds position lies below the capacity.
pub proof fn lemma_index_lt_capacity(extents: Seq<usize>, position: Seq<usize>)
    requires
        in_bounds(extents, position),
    ensures
        index_of(extents, position) < capacity_of(extents),
    decreases extents.len(),
{
    if extents.len() == 0 {
    } else {
        let e0 = extents[0] as nat;
        let etail = extents.drop_first();
        let ptail = position.drop_first();
        assert(in_bounds(etail, ptail)) by {
            assert(forall|i: int| 0 <= i < etail.len() ==> ptail[i] == position[i + 1]);
            assert(forall|i: int|
                0 <= i < etail.len() ==> ptail[i] < (#[trigger] etail[i])) by {
                assert(forall|i: int| 0 <= i < etail.len() ==> etail[i] == extents[i + 1]);
            }
        }
        lemma_index_lt_capacity(etail, ptail);
        let rest = index_of(etail, ptail);
        let cap_rest = capacity_of(etail);
        assert((position[0] as nat) + e0 * rest < e0 * cap_rest) by (nonlinear_arith)
            requires
                (position[0] as nat) < e0,
                rest < cap_rest,
        ;
    }
}

/// `position_of` of an index below the capacity is in bounds.
pub proof fn lemma_position_of_in_bounds(extents: Seq<usize>, index: nat)
    requires
        index < capacity_of(extents),
    ensures
        in_bounds(extents, position_of(extents, index)),
    decreases extents.len(),
{
    if extents.len() == 0 {
    } else {
        let e0 = extents[0] as nat;
        let etail = extents.drop_first();
        let p = position_of(extents, index);
        assert(capacity_of(extents) > 0);
        lemma_capacity_positive_extents(extents, 0);
        assert(index / e0 < capacity_of(etail)) by {
            lemma_div_bound(index, e0, capacity_of(etail));
        }
        lemma_position_of_in_bounds(etail, index / e0);
        let ptail = position_of(etail, index / e0);
        assert(p.len() == extents.len());
        assert forall|i: int| 0 <= i < extents.len() implies p[i] < (#[trigger] extents[i]) by {
            if i == 0 {
                assert(p[0] == (index % e0) as usize);
            } else {
                assert(p[i] == ptail[i - 1]);
                assert(etail[i - 1] == extents[i]);
                assert(ptail[i - 1] < etail[i - 1]);
            }
        }
    }
}

/// Round trip: decoding a linear index below the capacity into a position
/// and encoding it back yields the same index.
pub proof fn lemma_index_round_trip(extents: Seq<usize>, index: nat)
    requires
        index < capacity_of(extents),
    ensures
        in_bounds(extents, position_of(extents, index)),
        index_of(extents, position_of(extents, index)) == index,
    decreases extents.len(),
{
    lemma_position_of_in_bounds(extents, index);
    if extents.len() == 0 {
    } else {
        let e0 = extents[0] as nat;
        let etail = extents.drop_first();
        let p = position_of(extents, index);
        assert(capacity_of(extents) > 0);
        lemma_capacity_positive_extents(extents, 0);
        assert(index / e0 < capacity_of(etail)) by {
            lemma_div_bound(index, e0, capacity_of(etail));
        }
        lemma_index_round_trip(etail, index / e0);
        assert(p.drop_first() =~= position_of(etail, index / e0));
        lemma_fundamental_div_mod(index as int, e0 as int);
        assert(index_of(extents, p) == (index % e0) + e0 * (index / e0));
    }
}

/// Round trip: encoding an in-bounds position into a linear index and
/// decoding it back yields the same position.
pub proof fn lemma_position_round_trip(extents: Seq<usize>, position: Seq<usize>)
    requires
        in_bounds(extents, position),
    ensures
        index_of(extents, position) < capacity_of(extents),
        position_of(extents, index_of(extents, position)) == position,
    decreases extents.len(),
{
    lemma_index_lt_capacity(extents, position);
    if extents.len() == 0 {
        assert(position_of(extents, index_of(extents, position)) =~= position);
    } else {
        let e0 = extents[0] as nat;
        let etail = extents.drop_first();
        let ptail = position.drop_first();
        assert(in_bounds(etail, ptail)) by {
            assert(forall|i: int| 0 <= i < etail.len() ==> ptail[i] == position[i + 1]);
            assert(forall|i: int|
                0 <= i < etail.len() ==> ptail[i] < (#[trigger] etail[i])) by {
                assert(forall|i: int| 0 <= i < etail.len() ==> etail[i] == extents[i + 1]);
            }
        }
        lemma_position_round_trip(etail, ptail);
        let index = index_of(extents, position);
        let rest = index_of(etail, ptail);
        assert(index as int == rest * e0 + position[0]) by (nonlinear_arith)
            requires
                index == (position[0] as nat) + e0 * rest,
        ;
        lemma_fundamental_div_mod_converse_mod(index as int, e0 as int, rest as int, position[0] as int);
        lemma_fundamental_div_mod_converse_div(index as int, e0 as int, rest as int, position[0] as int);
        assert(index % e0 == position[0] as nat);
        assert(index / e0 == rest);
        assert(position_of(extents, index) =~= position);
    }
}

/// Two distinct linear indices below the capacity decode to two distinct
/// positions: the enumeration of a shape never repeats a position.
pub proof fn lemma_positions_distinct(extents: Seq<usize>, i: nat, j: nat)
    requires
        i < capacity_of(extents),
        j < capacity_of(extents),
        i != j,
    ensures
        position_of(extents, i) != position_of(extents, j),
{
    lemma_index_round_trip(extents, i);
    lemma_index_round_trip(extents, j);
}

/// Suffixes of an in-bounds position stay in bounds of the matching
/// suffix of the shape.
proof fn lemma_suffix_in_bounds(extents: Seq<usize>, position: Seq<usize>, i: int)
    requires
        in_bounds(extents, position),
        0 <= i <= extents.len(),
    ensures
        in_bounds(extents.skip(i), position.skip(i)),
{
    let etail = extents.skip(i);
    let ptail = position.skip(i);
    assert forall|t: int| 0 <= t < etail.len() implies ptail[t] < (#[trigger] etail[t]) by {
        assert(ptail[t] == position[t + i]);
        assert(etail[t] == extents[t + i]);
    }
}

/// With every extent positive, dropping a prefix cannot grow the capacity.
proof fn lemma_suffix_capacity_le(extents: Seq<usize>, i: int)
    requires
        0 <= i <= extents.len(),
        forall|t: int| 0 <= t < extents.len() ==> (#[trigger] extents[t]) > 0,
    ensures
        capacity_of(extents.skip(i)) <= capacity_of(extents),
{
    lemma_capacity_split(extents, i);
    assert(forall|t: int|
        0 <= t < extents.take(i).len() ==> (#[trigger] extents.take(i)[t]) > 0);
    lemma_capacity_positive(extents.take(i));
    lemma_mul_inequality(
        1,
        capacity_of(extents.take(i)) as int,
        capacity_of(extents.skip(i)) as int,
    );
}

/// Dividing a value below `d * c` by a positive `d` lands below `c`.
proof fn lemma_div_bound(x: nat, d: nat, c: nat)
    requires
        d > 0,
        x < d * c,
    ensures
        x / d < c,
{
    if x / d >= c {
        lemma_fundamental_div_mod(x as int, d as int);
        assert((d as int) * ((x as int) / (d as int)) >= (d as int) * (c as int))
            by (nonlinear_arith)
            requires
                d > 0,
                (x as int) / (d as int) >= c,
        ;
    }
}

/// The product of the first `dim` extents, all of them when `dim` reaches
/// past the end, and `0` as soon as one of them is `0`.
pub fn subd(extents: &Vec<usize>, dim: usize) -> (r: usize)
    requires
        subd_of(extents@, dim as int) <= usize::MAX,
    ensures
        r == subd_of(extents@, dim as int),
{
    let n = if dim < extents.len() {
        dim
    } else {
        extents.len()
    };
    let ghost prefix = extents@.take(n as int);
    proof {
        if dim >= extents.len() {
            assert(extents@.take(n as int) =~= extents@);
        }
        assert(subd_of(extents@, dim as int) == capacity_of(prefix));
    }
    let mut j: usize = 0;
    while j < n
        invariant
            j <= n,
            n <= extents@.len(),
            prefix == extents@.take(n as int),
            subd_of(extents@, dim as int) == capacity_of(prefix),
            forall|t: int| 0 <= t < j ==> (#[trigger] extents@[t]) > 0,
        decreases n - j,
    {
        if extents[j] == 0 {
            proof {
                lemma_capacity_zero(prefix, j as int);
            }
            return 0;
        }
        j += 1;
    }
    let mut acc: usize = 1;
    let mut i = n;
    proof {
        assert(prefix.skip(n as int) =~= Seq::<usize>::empty());
    }
    while i > 0
        invariant
            i <= n,
            n <= extents@.len(),
            prefix == extents@.take(n as int),
            subd_of(extents@, dim as int) == capacity_of(prefix),
            capacity_of(prefix) <= usize::MAX,
            forall|t: int| 0 <= t < prefix.len() ==> (#[trigger] prefix[t]) > 0,
            acc == capacity_of(prefix.skip(i as int)),
        decreases i,
    {
        i -= 1;
        proof {
            assert(prefix.skip(i as int).drop_first() =~= prefix.skip(i as int + 1));
            assert(prefix.skip(i as int)[0] == prefix[i as int]);
            assert(capacity_of(prefix.skip(i as int)) == (prefix[i as int] as nat) * acc);
            lemma_suffix_capacity_le(prefix, i as int);
        }
        acc = extents[i] * acc;
    }
    proof {
        assert(prefix.skip(0) =~= prefix);
    }
    acc
}

/// The capacity of `extents` where it fits the machine's index range,
/// and nothing where the product of the extents would overflow: the
/// checked gateway to the shape arithmetic for shapes not known in
/// advance.
pub fn checked_capacity(extents: &Vec<usize>) -> (r: Option<usize>)
    ensures
        capacity_of(extents@) <= usize::MAX ==> r == Some(capacity_of(extents@) as usize),
        capacity_of(extents@) > usize::MAX ==> r is None,
{
    let n = extents.len();
    let mut j: usize = 0;
    while j < n
        invariant
            j <= n,
            n == extents@.len(),
            forall|t: int| 0 <= t < j ==> (#[trigger] extents@[t]) > 0,
        decreases n - j,
    {
        if extents[j] == 0 {
            proof {
                lemma_capacity_zero(extents@, j as int);
            }
            return Some(0);
        }
        j += 1;
    }
    let mut acc: usize = 1;
    let mut i: usize = n;
    proof {
        assert(extents@.skip(n as int) =~= Seq::<usize>::empty());
    }
    while i > 0
        invariant
            i <= n,
            n == extents@.len(),
            forall|t: int| 0 <= t < n ==> (#[trigger] extents@[t]) > 0,
            acc == capacity_of(extents@.skip(i as int)),
        decreases i,
    {
        i -= 1;
        proof {
            assert(extents@.skip(i as int).drop_first() =~= extents@.skip(i as int + 1));
            assert(extents@.skip(i as int)[0] == extents@[i as int]);
        }
        match extents[i].checked_mul(acc) {
            Some(v) => {
                acc = v;
            },
            None => {
                proof {
                    lemma_capacity_split(extents@, i as int);
                    assert(forall|t: int|
                        0 <= t < extents@.take(i as int).len() ==> (#[trigger] extents@.take(
                            i as int,
                        )[t]) > 0);
                    lemma_capacity_positive(extents@.take(i as int));
                    lemma_mul_inequality(
                        1,
                        capacity_of(extents@.take(i as int)) as int,
                        capacity_of(extents@.skip(i as int)) as int,
                    );
                }
                return None;
            },
        }
    }
    proof {
        assert(extents@.skip(0) =~= extents@);
    }
    Some(acc)
}

/// The row-major linear index of `position` within `extents`, or nothing
/// when a coordinate reaches its extent or the lengths differ.
pub fn position_to_index(extents: &Vec<usize>, position: &Vec<usize>) -> (r: Option<usize>)
    requires
        capacity_of(extents@) <= usize::MAX,
    ensures
        in_bounds(extents@, position@) ==> r == Some(index_of(extents@, position@) as usize),
        !in_bounds(extents@, position@) ==> r is None,
{
    if position.len() != extents.len() {
        return None;
    }
    let n = extents.len();
    let mut j: usize = 0;
    while j < n
        invariant
            j <= n,
            n == extents@.len(),
            position@.len() == n,
            forall|t: int| 0 <= t < j ==> position@[t] < (#[trigger] extents@[t]),
        decreases n - j,
    {
        if position[j] >= extents[j] {
            return None;
        }
        j += 1;
    }
    proof {
        lemma_index_lt_capacity(extents@, position@);
    }
    let mut acc: usize = 0;
    let mut i = n;
    proof {
        assert(extents@.skip(n as int) =~= Seq::<usize>::empty());
        assert(position@.skip(n as int) =~= Seq::<usize>::empty());
    }
    while i > 0
        invariant
            i <= n,
            n == extents@.len(),
            capacity_of(extents@) <= usize::MAX,
            in_bounds(extents@, position@),
            acc == index_of(extents@.skip(i as int), position@.skip(i as int)),
        decreases i,
    {
        i -= 1;
        proof {
            assert(extents@.skip(i as int).drop_first() =~= extents@.skip(i as int + 1));
            assert(position@.skip(i as int).drop_first() =~= position@.skip(i as int + 1));
            assert(extents@.skip(i as int)[0] == extents@[i as int]);
            assert(position@.skip(i as int)[0] == position@[i as int]);
            lemma_suffix_in_bounds(extents@, position@, i as int);
            lemma_index_lt_capacity(extents@.skip(i as int), position@.skip(i as int));
            assert(forall|t: int|
                0 <= t < extents@.len() ==> (#[trigger] extents@[t]) > 0) by {
                assert(forall|t: int|
                    0 <= t < extents@.len() ==> position@[t] < (#[trigger] extents@[t]));
            }
            lemma_suffix_capacity_le(extents@, i as int);
            assert(index_of(extents@.skip(i as int), position@.skip(i as int))
                == (position@[i as int] as nat) + (extents@[i as int] as nat) * acc);
        }
        acc = position[i] + extents[i] * acc;
    }
    proof {
        assert(extents@.skip(0) =~= extents@);
        assert(position@.skip(0) =~= position@);
    }
    Some(acc)
}

/// The position whose row-major linear index within `extents` is `index`,
/// or nothing when `index` reaches the capacity.
pub fn index_to_position(extents: &Vec<usize>, index: usize) -> (r: Option<Vec<usize>>)
    requires
        capacity_of(extents@) <= usize::MAX,
    ensures
        (index as nat) < capacity_of(extents@) ==> (r matches Some(p) && p@ == position_of(
            extents@,
            index as nat,
        ) && in_bounds(extents@, p@)),
        (index as nat) >= capacity_of(extents@) ==> r is None,
{
    let capacity = subd(extents, extents.len());
    if index >= capacity {
        return None;
    }
    proof {
        lemma_position_of_in_bounds(extents@, index as nat);
        assert(forall|t: int|
            0 <= t < extents@.len() ==> (#[trigger] extents@[t]) > 0) by {
            if exists|t: int| 0 <= t < extents@.len() && extents@[t] == 0 {
                let t = choose|t: int| 0 <= t < extents@.len() && extents@[t] == 0;
                lemma_capacity_zero(extents@, t);
            }
        }
    }
    let n = extents.len();
    let mut out: Vec<usize> = Vec::new();
    let mut rem: usize = index;
    let mut i: usize = 0;
    proof {
        assert(extents@.skip(0) =~= extents@);
        assert(out@ + position_of(extents@, index as nat) =~= position_of(extents@, index as nat));
    }
    while i < n
        invariant
            i <= n,
            n == extents@.len(),
            capacity_of(extents@) <= usize::MAX,
            forall|t: int| 0 <= t < n ==> (#[trigger] extents@[t]) > 0,
            out@.len() == i,
            rem < capacity_of(extents@.skip(i as int)),
            position_of(extents@, index as nat) == out@ + position_of(
                extents@.skip(i as int),
                rem as nat,
            ),
        decreases n - i,
    {
        let e = extents[i];
        proof {
            assert(extents@.skip(i as int)[0] == extents@[i as int]);
            assert(extents@.skip(i as int).drop_first() =~= extents@.skip(i as int + 1));
            assert(capacity_of(extents@.skip(i as int)) == (e as nat) * capacity_of(
                extents@.skip(i as int + 1),
            ));
            lemma_div_bound(rem as nat, e as nat, capacity_of(extents@.skip(i as int + 1)));
            assert(position_of(extents@.skip(i as int), rem as nat) == seq![
                ((rem as nat) % (e as nat)) as usize,
            ] + position_of(extents@.skip(i as int + 1), (rem as nat) / (e as nat)));
            assert(out@ + position_of(extents@.skip(i as int), rem as nat) =~= out@.push(
                (((rem as nat) % (e as nat)) as usize),
            ) + position_of(extents@.skip(i as int + 1), (rem as nat) / (e as nat)));
        }
        let d = rem % e;
        out.push(d);
        rem = rem / e;
        i += 1;
    }
    proof {
        assert(extents@.skip(n as int) =~= Seq::<usize>::empty());
        assert(out@ + Seq::<usize>::empty() =~= out@);
    }
    Some(out)
}

/// A fresh vector with the same entries.
pub(crate) fn duplicate<T: Copy>(v: &Vec<T>) -> (r: Vec<T>)
    ensures
        r@ == v@,
{
    let mut out: Vec<T> = Vec::new();
    let mut i: usize = 0;
    while i < v.len()
        invariant
            i <= v@.len(),
            out@ == v@.take(i as int),
        decreases v@.len() - i,
    {
        out.push(v[i]);
        proof {
            assert(out@ =~= v@.take(i as int + 1));
        }
        i += 1;
    }
    proof {
        assert(v@.take(v@.len() as int) =~= v@);
    }
    out
}

/// Value-level shape operations.  Implemented for `Vec<usize>`, which
/// serves both as a shape, a list of extents, and as a position, a
/// same-length list of coordinates.
pub trait Shape: Sized {
    /// The extents, or the coordinates, this value lists, one per axis.
    spec fn extents(&self) -> Seq<usize>;

    /// How many axes this value lists.
    fn dimensions(&self) -> (r: usize)
        ensures
            r == self.extents().len(),
    ;

    /// The number of items the shape holds: the product of its extents.
    fn capacity(&self) -> (r: usize)
        requires
            capacity_of(self.extents()) <= usize::MAX,
        ensures
            r == capacity_of(self.extents()),
    ;

    /// One extent, or one coordinate.
    fn get(&self, axis: usize) -> (r: usize)
        requires
            axis < self.extents().len(),
        ensures
            r == self.extents()[axis as int],
    ;

    /// Replaces one extent, or one coordinate.
    fn set(&mut self, axis: usize, value: usize)
        requires
            axis < old(self).extents().len(),
        ensures
            final(self).extents() == old(self).extents().update(axis as int, value),
    ;

    /// The row-major linear index of `position`, or nothing when a
    /// coordinate reaches its extent or the lengths differ.
    fn position_to_index(&self, position: &Self) -> (r: Option<usize>)
        requires
            capacity_of(self.extents()) <= usize::MAX,
        ensures
            in_bounds(self.extents(), position.extents()) ==> r == Some(
                index_of(self.extents(), position.extents()) as usize,
            ),
            !in_bounds(self.extents(), position.extents()) ==> r is None,
    ;

    /// The position at linear index `index`, or nothing once `index`
    /// reaches the capacity.
    fn index_to_position(&self, index: usize) -> (r: Option<Self>)
        requires
            capacity_of(self.extents()) <= usize::MAX,
        ensures
            (index as nat) < capacity_of(self.extents()) ==> (r matches Some(p)
                && p.extents() == position_of(self.extents(), index as nat)
                && in_bounds(self.extents(), p.extents())),
            (index as nat) >= capacity_of(self.extents()) ==> r is None,
    ;

    /// A fresh enumerator over every position of the shape.
    fn positions(&self) -> (r: Positions)
        requires
            capacity_of(self.extents()) <= usize::MAX,
        ensures
            r.shape() == self.extents(),
            r.cursor() == 0,
            r.wf(),
    ;
}

impl Shape for Vec<usize> {
    open spec fn extents(&self) -> Seq<usize> {
        self@
    }

    fn dimensions(&self) -> usize {
        self.len()
    }

    fn capacity(&self) -> usize {
        subd(self, self.len())
    }

    fn get(&self, axis: usize) -> usize {
        self[axis]
    }

    fn set(&mut self, axis: usize, value: usize) {
        self[axis] = value;
    }

    fn position_to_index(&self, position: &Self) -> Option<usize> {
        position_to_index(self, position)
    }

    fn index_to_position(&self, index: usize) -> Option<Self> {
        index_to_position(self, index)
    }

    fn positions(&self) -> Positions {
        Positions::new(duplicate(self))
    }
}

/// Inserting one coordinate into a position, or one extent into a shape,
/// at a chosen axis slot.
pub trait AttachAxis: Shape {
    /// A value one axis longer, with `value` inserted at slot `axis`.
    fn attach_axis(&self, axis: usize, value: usize) -> (r: Self)
        requires
            axis <= self.extents().len(),
        ensures
            r.extents() == self.extents().insert(axis as int, value),
    ;
}

/// Removing one coordinate from a position, or one extent from a shape,
/// at a chosen axis slot.
pub trait DetachAxis: Shape {
    /// A value one axis shorter, with the entry at slot `axis` removed.
    fn detach_axis(&self, axis: usize) -> (r: Self)
        requires
            axis < self.extents().len(),
        ensures
            r.extents() == self.extents().remove(axis as int),
    ;
}

impl AttachAxis for Vec<usize> {
    fn attach_axis(&self, axis: usize, value: usize) -> Self {
        let mut out = duplicate(self);
        out.insert(axis, value);
        out
    }
}

impl DetachAxis for Vec<usize> {
    fn detach_axis(&self, axis: usize) -> Self {
        let mut out = duplicate(self);
        out.remove(axis);
        out
    }
}

/// Attaching a value at an axis slot and detaching the same slot returns
/// the original value: the two operations are mutually inverse.
pub proof fn lemma_attach_detach_inverse(coords: Seq<usize>, axis: int, value: usize)
    requires
        0 <= axis <= coords.len(),
    ensures
        coords.insert(axis, value).remove(axis) == coords,
{
    assert(coords.insert(axis, value).remove(axis) =~= coords);
}

/// Detaching an axis slot and attaching the removed entry back at the
/// same slot returns the original value.
pub proof fn lemma_detach_attach_inverse(coords: Seq<usize>, axis: int)
    requires
        0 <= axis < coords.len(),
    ensures
        coords.remove(axis).insert(axis, coords[axis]) == coords,
{
    assert(coords.remove(axis).insert(axis, coords[axis]) =~= coords);
}

} // verus!
