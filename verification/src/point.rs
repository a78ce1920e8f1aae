//! Lattice points and their neighbours under wrap-around.
//!
//! An axis has the coordinates `0..=last`. Stepping past either end of it
//! comes back in at the other: the coordinate `offset` steps from `c` is
//! `(c + offset) mod (last + 1)`.

use crate::rule::Neighbors;
use vstd::arithmetic::div_mod::lemma_fundamental_div_mod;
use vstd::arithmetic::div_mod::lemma_mod_bound;
use vstd::arithmetic::div_mod::lemma_mod_multiples_vanish;
use vstd::arithmetic::div_mod::lemma_small_mod;
use vstd::prelude::*;

verus! {

/// A point of the lattice.
#[derive(Debug, Clone, Copy, PartialEq, Eq, Structural)]
pub struct Point {
    pub x: usize,
    pub y: usize,
    pub z: usize,
}

/// A step along the three axes.
pub type Offset = (int, int, int);

/// The coordinate `offset` steps from `c` on an axis with the coordinates
/// `0..=last`.
pub open spec fn wrap(c: int, offset: int, last: int) -> int {
    (c + offset) % (last + 1)
}

/// A single step that stays on the axis moves by one; a step down from 0
/// arrives at `last`, and a step up from `last` arrives at 0.
pub proof fn lemma_wrap_step(c: int, offset: int, last: int)
    requires
        0 <= c <= last,
        -1 <= offset <= 1,
    ensures
        0 <= c + offset <= last ==> wrap(c, offset, last) == c + offset,
        c + offset < 0 ==> wrap(c, offset, last) == last,
        c + offset > last ==> wrap(c, offset, last) == 0,
{
    let m = last + 1;
    if c + offset < 0 {
        lemma_mod_multiples_vanish(-1, last, m);
        lemma_small_mod(last as nat, m as nat);
    } else if c + offset > last {
        lemma_mod_multiples_vanish(1, 0, m);
        lemma_small_mod(0, m as nat);
    } else {
        lemma_small_mod((c + offset) as nat, m as nat);
    }
}

/// Wrap-around at the two ends of an axis: one step down from coordinate 0
/// gives the greatest coordinate of the axis, and one step up from the
/// greatest coordinate gives 0.
pub proof fn lemma_wrap_around(last: int)
    requires
        0 <= last,
    ensures
        wrap(0, -1, last) == last,
        wrap(last, 1, last) == 0,
{
    lemma_wrap_step(0, -1, last);
    lemma_wrap_step(last, 1, last);
}

/// A wrapped coordinate lies on the axis.
pub proof fn lemma_wrap_on_axis(c: int, offset: int, last: int)
    requires
        0 <= last,
    ensures
        0 <= wrap(c, offset, last) <= last,
{
    lemma_fundamental_div_mod(c + offset, last + 1);
    lemma_mod_bound(c + offset, last + 1);
}

/// The coordinate `offset` steps from `c` on an axis with the coordinates
/// `0..=last`: one step down from 0 is `last`, and one step up from `last`
/// is 0.
pub fn wrapping_step(c: usize, offset: isize, last: usize) -> (r: usize)
    ensures
        r == wrap(c as int, offset as int, last as int),
        r <= last,
        c == 0 && offset == -1 ==> r == last,
        c == last && offset == 1 ==> r == 0,
{
    let m: u128 = last as u128 + 1;
    proof {
        lemma_wrap_on_axis(c as int, offset as int, last as int);
        lemma_wrap_around(last as int);
    }
    if offset >= 0 {
        let sum: u128 = c as u128 + offset as u128;
        (sum % m) as usize
    } else {
        let down: u128 = (-(offset as i128)) as u128;
        let back: u128 = down % m;
        let sum: u128 = c as u128 + (m - back);
        proof {
            // sum == (c + offset) + m * (1 + down / m)
            lemma_fundamental_div_mod(down as int, m as int);
            lemma_mod_multiples_vanish(1 + (down as int) / (m as int), c + offset, m as int);
            assert(m * (1 + (down as int) / (m as int)) == m + m * ((down as int) / (m as int)))
                by (nonlinear_arith);
        }
        (sum % m) as usize
    }
}

/// The `i`-th step to a neighbour on the axes: down and up the x axis, then
/// the y axis, then the z axis.
pub open spec fn neumann_offset(i: int) -> Offset {
    let step = if i % 2 == 0 { -1int } else { 1int };
    if i / 2 == 0 {
        (step, 0, 0)
    } else if i / 2 == 1 {
        (0, step, 0)
    } else {
        (0, 0, step)
    }
}

/// The `i`-th step to a neighbour that differs by at most one on every axis:
/// the steps in `{-1, 0, 1}` on x, y and z in lexicographic order, without
/// the step that stays.
pub open spec fn moore_offset(i: int) -> Offset {
    let code = if i < 13 { i } else { i + 1 };
    (code / 9 - 1, (code / 3) % 3 - 1, code % 3 - 1)
}

/// The steps from a point to its neighbours, in the order in which
/// [`Point::neighbors`] lists them.
pub open spec fn offsets(n: Neighbors) -> Seq<Offset> {
    match n {
        Neighbors::Moore => Seq::new(26, |i: int| moore_offset(i)),
        Neighbors::Neumann => Seq::new(6, |i: int| neumann_offset(i)),
    }
}

/// Whether `d` is a step to a neighbour: under `Neumann` one step on exactly
/// one axis, under `Moore` at most one step on every axis and at least one
/// in all.
pub open spec fn is_offset(n: Neighbors, d: Offset) -> bool {
    &&& -1 <= d.0 <= 1
    &&& -1 <= d.1 <= 1
    &&& -1 <= d.2 <= 1
    &&& match n {
        Neighbors::Moore => d != (0int, 0int, 0int),
        Neighbors::Neumann => moved(d.0) + moved(d.1) + moved(d.2) == 1,
    }
}

/// 1 for a step that moves, 0 for one that stays.
pub open spec fn moved(step: int) -> int {
    if step != 0 {
        1
    } else {
        0
    }
}

/// The `i`-th step to a neighbour is such a step, and every such step is the
/// `i`-th for exactly one `i`.
pub proof fn lemma_offsets_exact(n: Neighbors)
    ensures
        offsets(n).len() == (if n is Moore { 26nat } else { 6nat }),
        forall|i: int| 0 <= i < offsets(n).len() ==> is_offset(n, #[trigger] offsets(n)[i]),
        forall|d: Offset| is_offset(n, d) ==> offsets(n).contains(d),
        offsets(n).no_duplicates(),
{
    assert forall|d: Offset| is_offset(n, d) implies offsets(n).contains(d) by {
        let i = offset_index(n, d);
        lemma_offset_index(n, d);
        assert(offsets(n)[i] == d);
    }
}

/// The place of the step `d` in [`offsets`].
pub open spec fn offset_index(n: Neighbors, d: Offset) -> int {
    match n {
        Neighbors::Moore => {
            let code = 9 * (d.0 + 1) + 3 * (d.1 + 1) + (d.2 + 1);
            if code < 13 {
                code
            } else {
                code - 1
            }
        },
        Neighbors::Neumann => if d.0 != 0 {
            (d.0 + 1) / 2
        } else if d.1 != 0 {
            2 + (d.1 + 1) / 2
        } else {
            4 + (d.2 + 1) / 2
        },
    }
}

/// [`offset_index`] finds a step in [`offsets`].
pub proof fn lemma_offset_index(n: Neighbors, d: Offset)
    requires
        is_offset(n, d),
    ensures
        0 <= offset_index(n, d) < offsets(n).len(),
        offsets(n)[offset_index(n, d)] == d,
{
}

impl Point {
    /// The point with the coordinates `x`, `y` and `z`.
    pub fn new(x: usize, y: usize, z: usize) -> (p: Point)
        ensures
            p == (Point { x, y, z }),
    {
        Point { x, y, z }
    }

    /// Whether the point lies in the lattice whose axes have the coordinates
    /// `0..=last`.
    pub open spec fn within(self, last: int) -> bool {
        self.x <= last && self.y <= last && self.z <= last
    }

    /// The point `d` away from `self`, each axis going round at `last`.
    pub open spec fn shifted(self, d: Offset, last: int) -> Point {
        Point {
            x: wrap(self.x as int, d.0, last) as usize,
            y: wrap(self.y as int, d.1, last) as usize,
            z: wrap(self.z as int, d.2, last) as usize,
        }
    }

    /// The neighbours of `self` in the lattice whose axes have the
    /// coordinates `0..=last`.
    pub open spec fn neighbors_of(self, n: Neighbors, last: int) -> Seq<Point> {
        Seq::new(offsets(n).len(), |i: int| self.shifted(offsets(n)[i], last))
    }

    /// The point `(dx, dy, dz)` away from `self`, each axis going round at
    /// `last`.
    pub fn offset(&self, dx: isize, dy: isize, dz: isize, last: usize) -> (p: Point)
        ensures
            p == self.shifted((dx as int, dy as int, dz as int), last as int),
            p.within(last as int),
    {
        Point {
            x: wrapping_step(self.x, dx, last),
            y: wrapping_step(self.y, dy, last),
            z: wrapping_step(self.z, dz, last),
        }
    }

    /// The neighbours of `self` where the axes span all of `usize`: 26 or 6
    /// points, all different from each other and from `self`.
    pub fn neighbors(&self, n: &Neighbors) -> (list: Vec<Point>)
        ensures
            list@ == self.neighbors_of(*n, usize::MAX as int),
            list@.len() == (if n is Moore { 26nat } else { 6nat }),
            list@.no_duplicates(),
            !list@.contains(*self),
    {
        self.neighbors_in(n, usize::MAX)
    }

    /// The neighbours of `self` in the lattice whose axes have the
    /// coordinates `0..=last`: 26 or 6 points of the lattice. They are
    /// different from each other and from `self` if `self` lies in the
    /// lattice and an axis has three coordinates or more.
    pub fn neighbors_in(&self, n: &Neighbors, last: usize) -> (list: Vec<Point>)
        ensures
            list@ == self.neighbors_of(*n, last as int),
            list@.len() == (if n is Moore { 26nat } else { 6nat }),
            forall|i: int| 0 <= i < list.len() ==> (#[trigger] list[i]).within(last as int),
            self.within(last as int) && last >= 2 ==> list@.no_duplicates() && !list@.contains(
                *self,
            ),
    {
        let mut list: Vec<Point> = Vec::new();
        match n {
            Neighbors::Moore => {
                let mut code: isize = 0;
                while code < 27
                    invariant
                        0 <= code <= 27,
                        list.len() == (if code <= 13 { code as int } else { code - 1 }),
                        forall|i: int|
                            0 <= i < list.len() ==> #[trigger] list[i] == self.shifted(
                                moore_offset(i),
                                last as int,
                            ),
                        forall|i: int|
                            0 <= i < list.len() ==> (#[trigger] list[i]).within(last as int),
                    decreases 27 - code,
                {
                    if code != 13 {
                        list.push(self.offset(code / 9 - 1, (code / 3) % 3 - 1, code % 3 - 1, last));
                    }
                    code += 1;
                }
            },
            Neighbors::Neumann => {
                list.push(self.offset(-1, 0, 0, last));
                list.push(self.offset(1, 0, 0, last));
                list.push(self.offset(0, -1, 0, last));
                list.push(self.offset(0, 1, 0, last));
                list.push(self.offset(0, 0, -1, last));
                list.push(self.offset(0, 0, 1, last));
            },
        }
        assert(list@ =~= self.neighbors_of(*n, last as int));
        proof {
            if self.within(last as int) && last >= 2 {
                lemma_neighbors_distinct(*self, *n, last as int);
            }
        }
        list
    }
}

/// The distance between `a` and `b` on one axis.
pub open spec fn gap(a: int, b: int) -> int {
    if a <= b {
        b - a
    } else {
        a - b
    }
}

/// The square of the straight-line distance between `a` and `b`.
pub open spec fn dist_squared(a: Point, b: Point) -> int {
    gap(a.x as int, b.x as int) * gap(a.x as int, b.x as int) + gap(a.y as int, b.y as int) * gap(
        a.y as int,
        b.y as int,
    ) + gap(a.z as int, b.z as int) * gap(a.z as int, b.z as int)
}

/// The distance between `a` and `b` on one axis.
fn axis_gap(a: usize, b: usize) -> (d: usize)
    ensures
        d == gap(a as int, b as int),
{
    if a <= b {
        b - a
    } else {
        a - b
    }
}

impl Point {
    /// Whether the straight-line distance from `self` to `other` is less than
    /// `radius`.
    pub fn closer_than(&self, other: &Point, radius: usize) -> (closer: bool)
        ensures
            closer == (dist_squared(*self, *other) < radius * radius),
    {
        let dx = axis_gap(self.x, other.x);
        let dy = axis_gap(self.y, other.y);
        let dz = axis_gap(self.z, other.z);
        if dx >= radius || dy >= radius || dz >= radius {
            assert(dx * dx + dy * dy + dz * dz >= radius * radius) by (nonlinear_arith)
                requires
                    dx >= radius || dy >= radius || dz >= radius,
            ;
            return false;
        }
        assert(dx * dx < radius * radius && dy * dy < radius * radius && dz * dz < radius * radius
            && radius * radius <= 0xffff_ffff_ffff_ffff * 0xffff_ffff_ffff_ffff)
            by (nonlinear_arith)
            requires
                dx < radius,
                dy < radius,
                dz < radius,
                radius <= 0xffff_ffff_ffff_ffff,
        ;
        let limit: u128 = (radius as u128) * (radius as u128);
        let left: u128 = limit - (dx as u128) * (dx as u128);
        let dy2: u128 = (dy as u128) * (dy as u128);
        if dy2 >= left {
            return false;
        }
        (dz as u128) * (dz as u128) < left - dy2
    }
}

/// On axes with at least three coordinates each, so around every point that
/// does not lie on the border of its lattice, a point has 26 neighbours under
/// `Moore` and 6 under `Neumann`: they lie in the lattice, no two of them
/// are the same point, and none of them is the point itself.
pub proof fn lemma_neighbors_distinct(p: Point, n: Neighbors, last: int)
    requires
        p.within(last),
        2 <= last <= usize::MAX,
    ensures
        p.neighbors_of(n, last).len() == (if n is Moore { 26nat } else { 6nat }),
        p.neighbors_of(n, last).no_duplicates(),
        !p.neighbors_of(n, last).contains(p),
        forall|i: int|
            0 <= i < p.neighbors_of(n, last).len() ==> (#[trigger] p.neighbors_of(
                n,
                last,
            )[i]).within(last),
{
    let list = p.neighbors_of(n, last);
    lemma_offsets_exact(n);
    assert forall|i: int| 0 <= i < list.len() implies (#[trigger] list[i]).within(last) && list[i]
        != p by {
        let d = offsets(n)[i];
        assert(is_offset(n, d));
        lemma_wrap_step(p.x as int, d.0, last);
        lemma_wrap_step(p.y as int, d.1, last);
        lemma_wrap_step(p.z as int, d.2, last);
    }
    assert forall|i: int, j: int| 0 <= i < list.len() && 0 <= j < list.len() && i != j implies list[i]
        != list[j] by {
        let d = offsets(n)[i];
        let e = offsets(n)[j];
        assert(is_offset(n, d));
        assert(is_offset(n, e));
        lemma_wrap_step(p.x as int, d.0, last);
        lemma_wrap_step(p.y as int, d.1, last);
        lemma_wrap_step(p.z as int, d.2, last);
        lemma_wrap_step(p.x as int, e.0, last);
        lemma_wrap_step(p.y as int, e.1, last);
        lemma_wrap_step(p.z as int, e.2, last);
        if list[i] == list[j] {
            assert(d == e);
            assert(false);
        }
    }
}

/// Around a point that lies on no face of its lattice nothing goes round:
/// each neighbour is the point that many steps away on each axis.
pub proof fn lemma_interior_neighbors(p: Point, n: Neighbors, last: int)
    requires
        0 < p.x < last,
        0 < p.y < last,
        0 < p.z < last,
        last <= usize::MAX,
    ensures
        forall|i: int|
            0 <= i < offsets(n).len() ==> {
                let d = offsets(n)[i];
                let q = #[trigger] p.neighbors_of(n, last)[i];
                q.x == p.x + d.0 && q.y == p.y + d.1 && q.z == p.z + d.2
            },
{
    lemma_offsets_exact(n);
    assert forall|i: int| 0 <= i < offsets(n).len() implies {
        let d = offsets(n)[i];
        let q = #[trigger] p.neighbors_of(n, last)[i];
        q.x == p.x + d.0 && q.y == p.y + d.1 && q.z == p.z + d.2
    } by {
        let d = offsets(n)[i];
        assert(is_offset(n, d));
        lemma_wrap_step(p.x as int, d.0, last);
        lemma_wrap_step(p.y as int, d.1, last);
        lemma_wrap_step(p.z as int, d.2, last);
    }
}

} // verus!
