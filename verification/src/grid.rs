//! The lattice of cells that an automaton runs on.

use crate::cell::CellStatus;
use crate::lattice::cell_at;
use crate::lattice::lattice_cells;
use crate::lattice::lattice_points;
use crate::lattice::lemma_index_point;
use crate::lattice::lemma_lattice_points;
use crate::lattice::point_index;
use crate::lattice::lemma_point_index;
use crate::lattice::lemma_same_cells;
use crate::lattice::lemma_successor;
use crate::lattice::live_count;
use crate::lattice::next_cell;
use crate::lattice::seeded;
use crate::lattice::successor;
use crate::lattice::well_formed;
use crate::lattice::index_point;
use crate::lattice::Cells;
use crate::lattice::SEED_RADIUS;
use crate::point::Point;
use crate::rule::Rule;
use vstd::prelude::*;

verus! {

/// A cubic lattice of cells. Its view is the cells, indexed by x, then y,
/// then z.
#[derive(Debug)]
pub struct Grid(Vec<Vec<Vec<CellStatus>>>);

impl View for Grid {
    type V = Cells;

    closed spec fn view(&self) -> Cells {
        Seq::new(
            self.0@.len(),
            |x: int| Seq::new(self.0@[x]@.len(), |y: int| self.0@[x]@[y]@),
        )
    }
}

impl Grid {
    /// What holds of every lattice: its cells form a cube, and none of
    /// them decays with no generation left.
    #[verifier::type_invariant]
    pub closed spec fn inv(&self) -> bool {
        well_formed(self@)
    }

    /// Whether `p` is a point of the lattice.
    pub open spec fn holds(&self, p: Point) -> bool {
        p.within(self@.len() - 1)
    }

    /// The number of cells along each axis.
    pub fn len(&self) -> (side: usize)
        ensures
            side == self@.len(),
            side >= 1,
            well_formed(self@),
    {
        proof {
            use_type_invariant(self);
        }
        self.0.len()
    }

    /// The cell at the point `p` of the lattice.
    fn cell(&self, p: &Point) -> (cell: &CellStatus)
        requires
            self.holds(*p),
        ensures
            *cell == cell_at(self@, *p),
            cell.wf(),
    {
        proof {
            use_type_invariant(self);
            assert(self@[p.x as int].len() == self@.len());
            assert(self@[p.x as int][p.y as int].len() == self@.len());
        }
        &self.0[p.x][p.y][p.z]
    }

    /// The cell at `p`, if `p` is a point of the lattice.
    pub fn get(&self, p: &Point) -> (cell: Option<&CellStatus>)
        ensures
            self.holds(*p) ==> cell == Some(&cell_at(self@, *p)),
            !self.holds(*p) ==> cell is None,
    {
        let side = self.len();
        if p.x < side && p.y < side && p.z < side {
            Some(self.cell(p))
        } else {
            None
        }
    }
}

impl Grid {
    /// The lattice whose cell at each point `p` is `f(p)`.
    fn build<F: Fn(Point) -> CellStatus>(size: usize, f: F) -> (g: Grid)
        requires
            size >= 1,
            forall|p: Point| p.within(size - 1) ==> call_requires(f, (p,)),
            forall|p: Point, c: CellStatus|
                p.within(size - 1) && call_ensures(f, (p,), c) ==> c.wf(),
        ensures
            g@.len() == size,
            well_formed(g@),
            forall|p: Point| p.within(size - 1) ==> call_ensures(f, (p,), cell_at(g@, p)),
    {
        let mut cells: Vec<Vec<Vec<CellStatus>>> = Vec::new();
        let mut x: usize = 0;
        while x < size
            invariant
                x <= size,
                cells@.len() == x,
                forall|p: Point| p.within(size - 1) ==> call_requires(f, (p,)),
                forall|p: Point, c: CellStatus|
                    p.within(size - 1) && call_ensures(f, (p,), c) ==> c.wf(),
                forall|i: int| 0 <= i < x ==> (#[trigger] cells@[i])@.len() == size,
                forall|i: int, j: int|
                    0 <= i < x && 0 <= j < size ==> (#[trigger] cells@[i]@[j])@.len() == size,
                forall|p: Point|
                    p.x < x && p.y < size && p.z < size ==> call_ensures(
                        f,
                        (p,),
                        #[trigger] cells@[p.x as int]@[p.y as int]@[p.z as int],
                    ),
            decreases size - x,
        {
            let mut plane: Vec<Vec<CellStatus>> = Vec::new();
            let mut y: usize = 0;
            while y < size
                invariant
                    x < size,
                    y <= size,
                    plane@.len() == y,
                    forall|p: Point| p.within(size - 1) ==> call_requires(f, (p,)),
                    forall|j: int| 0 <= j < y ==> (#[trigger] plane@[j])@.len() == size,
                    forall|p: Point|
                        p.x == x && p.y < y && p.z < size ==> call_ensures(
                            f,
                            (p,),
                            #[trigger] plane@[p.y as int]@[p.z as int],
                        ),
                decreases size - y,
            {
                let mut row: Vec<CellStatus> = Vec::new();
                let mut z: usize = 0;
                while z < size
                    invariant
                        x < size,
                        y < size,
                        z <= size,
                        row@.len() == z,
                        forall|p: Point| p.within(size - 1) ==> call_requires(f, (p,)),
                        forall|p: Point|
                            p.x == x && p.y == y && p.z < z ==> call_ensures(
                                f,
                                (p,),
                                #[trigger] row@[p.z as int],
                            ),
                    decreases size - z,
                {
                    let cell = f(Point { x, y, z });
                    row.push(cell);
                    z += 1;
                }
                plane.push(row);
                y += 1;
            }
            cells.push(plane);
            x += 1;
        }
        proof {
            let built = Seq::new(
                cells@.len(),
                |x: int| Seq::new(cells@[x]@.len(), |y: int| cells@[x]@[y]@),
            );
            assert forall|x: int, y: int, z: int|
                0 <= x < size && 0 <= y < size && 0 <= z < size implies (
            #[trigger] built[x][y][z]).wf() by {
                let p = Point { x: x as usize, y: y as usize, z: z as usize };
                assert(call_ensures(f, (p,), cells@[p.x as int]@[p.y as int]@[p.z as int]));
            }
            assert(well_formed(built));
        }
        let g = Grid(cells);
        assert forall|p: Point| p.within(size - 1) implies call_ensures(
            f,
            (p,),
            cell_at(g@, p),
        ) by {
            assert(cell_at(g@, p) == cells@[p.x as int]@[p.y as int]@[p.z as int]);
        }
        g
    }

    /// The lattice of side `size` with every cell dead.
    pub fn new(size: usize) -> (g: Grid)
        requires
            size >= 1,
        ensures
            g@.len() == size,
            well_formed(g@),
            forall|p: Point| g.holds(p) ==> cell_at(g@, p) == CellStatus::Dead,
    {
        let dead = |p: Point| -> (c: CellStatus)
            ensures
                c == CellStatus::Dead,
            { CellStatus::Dead };
        Grid::build(size, dead)
    }
}

impl Grid {
    /// The points of the lattice, each of them once: z runs fastest, then
    /// y, then x.
    pub fn points(&self) -> (list: Vec<Point>)
        ensures
            list@ == lattice_points(self@.len() as int),
            list@.len() == self@.len() * self@.len() * self@.len(),
            list@.no_duplicates(),
            forall|p: Point| list@.contains(p) <==> self.holds(p),
    {
        let side = self.len();
        let mut list: Vec<Point> = Vec::new();
        let mut x: usize = 0;
        while x < side
            invariant
                1 <= side,
                x <= side,
                list@.len() == x * side * side,
                forall|i: int| 0 <= i < list@.len() ==> #[trigger] list@[i] == index_point(side as int, i),
            decreases side - x,
        {
            let mut y: usize = 0;
            while y < side
                invariant
                    1 <= side,
                    x < side,
                    y <= side,
                    list@.len() == (x * side + y) * side,
                    forall|i: int|
                        0 <= i < list@.len() ==> #[trigger] list@[i] == index_point(side as int, i),
                decreases side - y,
            {
                let mut z: usize = 0;
                while z < side
                    invariant
                        1 <= side,
                        x < side,
                        y < side,
                        z <= side,
                        list@.len() == (x * side + y) * side + z,
                        forall|i: int|
                            0 <= i < list@.len() ==> #[trigger] list@[i] == index_point(
                                side as int,
                                i,
                            ),
                    decreases side - z,
                {
                    proof {
                        lemma_point_index(side as int, Point { x, y, z });
                    }
                    list.push(Point { x, y, z });
                    z += 1;
                }
                assert((x * side + y) * side + side == (x * side + (y + 1)) * side)
                    by (nonlinear_arith);
                y += 1;
            }
            assert((x * side + side) * side == (x + 1) * side * side) by (nonlinear_arith);
            x += 1;
        }
        assert(list@ =~= lattice_points(side as int));
        proof {
            lemma_lattice_points(side as int);
        }
        list
    }

    /// Every point of the lattice with its cell, each point once, in the
    /// order of [`Grid::points`].
    pub fn iter(&self) -> (list: Vec<(Point, CellStatus)>)
        ensures
            list@ == lattice_cells(self@),
            list@.len() == self@.len() * self@.len() * self@.len(),
            forall|p: Point|
                self.holds(p) ==> list@[point_index(self@.len() as int, p)] == (
                    p,
                    cell_at(self@, p),
                ),
    {
        let side = self.len();
        let points = self.points();
        let mut list: Vec<(Point, CellStatus)> = Vec::new();
        let mut i: usize = 0;
        while i < points.len()
            invariant
                i <= points.len(),
                side == self@.len(),
                points@ == lattice_points(side as int),
                list@.len() == i,
                forall|j: int|
                    0 <= j < i ==> #[trigger] list@[j] == (points@[j], cell_at(self@, points@[j])),
            decreases points.len() - i,
        {
            proof {
                lemma_index_point(side as int, i as int);
            }
            let p = points[i];
            list.push((p, *self.cell(&p)));
            i += 1;
        }
        assert(list@ =~= lattice_cells(self@));
        assert forall|p: Point| self.holds(p) implies list@[point_index(side as int, p)] == (
            p,
            cell_at(self@, p),
        ) by {
            lemma_point_index(side as int, p);
        }
        list
    }

    /// A lattice of side `size` that is dead but for a ball around its
    /// centre: there a cell is alive where `field` says so.
    pub fn new_noise<F: Fn(Point) -> bool>(size: usize, field: F) -> (g: Grid)
        requires
            size >= 1,
            forall|p: Point| p.within(size - 1) && seeded(size as int, p) ==> call_requires(field, (p,)),
        ensures
            g@.len() == size,
            well_formed(g@),
            forall|p: Point|
                g.holds(p) && !seeded(size as int, p) ==> cell_at(g@, p) == CellStatus::Dead,
            forall|p: Point|
                g.holds(p) && seeded(size as int, p) ==> {
                    ||| cell_at(g@, p) == CellStatus::Alive && call_ensures(field, (p,), true)
                    ||| cell_at(g@, p) == CellStatus::Dead && call_ensures(field, (p,), false)
                },
    {
        let mid = size / 2;
        let middle = Point { x: mid, y: mid, z: mid };
        let sample = &field;
        let seed = |p: Point| -> (c: CellStatus)
            requires
                p.within(size - 1),
                seeded(size as int, p) ==> call_requires(sample, (p,)),
            ensures
                !seeded(size as int, p) ==> c == CellStatus::Dead,
                seeded(size as int, p) ==> {
                    ||| c == CellStatus::Alive && call_ensures(sample, (p,), true)
                    ||| c == CellStatus::Dead && call_ensures(sample, (p,), false)
                },
            {
                if p.closer_than(&middle, SEED_RADIUS) && sample(p) {
                    CellStatus::Alive
                } else {
                    CellStatus::Dead
                }
            };
        Grid::build(size, seed)
    }
}

impl Grid {
    /// How many of `points` hold a live cell.
    pub fn count_live(&self, points: &Vec<Point>) -> (count: usize)
        requires
            forall|i: int| 0 <= i < points.len() ==> self.holds(#[trigger] points[i]),
        ensures
            count == live_count(self@, points@),
            count <= points.len(),
    {
        let mut count: usize = 0;
        let mut i: usize = 0;
        while i < points.len()
            invariant
                i <= points.len(),
                count <= i,
                count == live_count(self@, points@.subrange(0, i as int)),
                forall|j: int| 0 <= j < points.len() ==> self.holds(#[trigger] points[j]),
            decreases points.len() - i,
        {
            assert(points@.subrange(0, i + 1).drop_last() == points@.subrange(0, i as int));
            if self.cell(&points[i]).is_live() {
                count += 1;
            }
            i += 1;
        }
        assert(points@.subrange(0, i as int) == points@);
        count
    }

    /// The cell at `p` in the next generation.
    pub fn next_as_point(&self, p: &Point, rule: &Rule) -> (cell: CellStatus)
        requires
            rule@.valid(),
            self.holds(*p),
        ensures
            cell == next_cell(self@, rule@, *p),
            cell.wf(),
    {
        let side = self.len();
        let around = p.neighbors_in(&rule.neighbors, side - 1);
        let count = self.count_live(&around);
        self.cell(p).next_state(rule, count)
    }

    /// The next generation: a lattice of the same side in which every cell
    /// is in the state that follows from the state of the cell at its point
    /// in `self` and from the number of that cell's live neighbours in
    /// `self`.
    pub fn next(&self, rule: &Rule) -> (g: Grid)
        requires
            rule@.valid(),
        ensures
            g@ == successor(self@, rule@),
            g@.len() == self@.len(),
            well_formed(g@),
            forall|p: Point| self.holds(p) ==> cell_at(g@, p) == next_cell(self@, rule@, p),
    {
        let side = self.len();
        let step = |p: Point| -> (c: CellStatus)
            requires
                self.holds(p),
            ensures
                c == next_cell(self@, rule@, p),
                c.wf(),
            { self.next_as_point(&p, rule) };
        let g = Grid::build(side, step);
        proof {
            lemma_successor(self@, rule@);
            lemma_same_cells(g@, successor(self@, rule@));
        }
        g
    }
}

impl Clone for Grid {
    fn clone(&self) -> (g: Grid)
        ensures
            g@ == self@,
    {
        let side = self.len();
        let same = |p: Point| -> (c: CellStatus)
            requires
                self.holds(p),
            ensures
                c == cell_at(self@, p),
            { *self.cell(&p) };
        let g = Grid::build(side, same);
        proof {
            lemma_same_cells(g@, self@);
        }
        g
    }
}

} // verus!
