//! A lattice of cells and its generations, as mathematics.
//!
//! A lattice is a cube of cells. Its points have the coordinates
//! `0..side` on each axis, and its faces are joined to the faces across: the
//! neighbours of a point on a face lie on the other side of the cube.

use crate::cell::CellStatus;
use crate::point::dist_squared;
use crate::point::Point;
use crate::rule::Neighbors;
use crate::rule::RuleView;
use vstd::arithmetic::div_mod::lemma_fundamental_div_mod;
use vstd::arithmetic::div_mod::lemma_fundamental_div_mod_converse;
use vstd::arithmetic::div_mod::lemma_mod_bound;
use vstd::prelude::*;

verus! {

/// The cells of a lattice, indexed by x, then y, then z.
pub type Cells = Seq<Seq<Seq<CellStatus>>>;

/// Whether `cells` is a cube with at least one cell, none of them decaying
/// with no generation left.
pub open spec fn well_formed(cells: Cells) -> bool {
    &&& 1 <= cells.len() <= usize::MAX
    &&& forall|x: int| 0 <= x < cells.len() ==> (#[trigger] cells[x]).len() == cells.len()
    &&& forall|x: int, y: int|
        0 <= x < cells.len() && 0 <= y < cells.len() ==> (#[trigger] cells[x][y]).len()
            == cells.len()
    &&& forall|x: int, y: int, z: int|
        0 <= x < cells.len() && 0 <= y < cells.len() && 0 <= z < cells.len() ==> (
        #[trigger] cells[x][y][z]).wf()
}

/// The cell at `p`.
pub open spec fn cell_at(cells: Cells, p: Point) -> CellStatus {
    cells[p.x as int][p.y as int][p.z as int]
}

/// Two lattices of the same side with the same cell at every point are the
/// same lattice.
pub proof fn lemma_same_cells(a: Cells, b: Cells)
    requires
        well_formed(a),
        well_formed(b),
        a.len() == b.len(),
        forall|p: Point| p.within(a.len() - 1) ==> cell_at(a, p) == cell_at(b, p),
    ensures
        a == b,
{
    assert forall|x: int| 0 <= x < a.len() implies a[x] == b[x] by {
        assert forall|y: int| 0 <= y < a.len() implies a[x][y] == b[x][y] by {
            assert forall|z: int| 0 <= z < a.len() implies a[x][y][z] == b[x][y][z] by {
                let p = Point { x: x as usize, y: y as usize, z: z as usize };
                assert(p.within(a.len() - 1));
                assert(cell_at(a, p) == cell_at(b, p));
            }
            assert(a[x][y] =~= b[x][y]);
        }
        assert(a[x] =~= b[x]);
    }
    assert(a =~= b);
}

/// How many of `points` hold a live cell, each point counted as often as it
/// occurs.
pub open spec fn live_count(cells: Cells, points: Seq<Point>) -> nat
    decreases points.len(),
{
    if points.len() == 0 {
        0
    } else {
        live_count(cells, points.drop_last()) + if cell_at(cells, points.last()).live() {
            1nat
        } else {
            0nat
        }
    }
}

/// How many neighbours of `p` are live, the lattice going round at its
/// faces.
pub open spec fn live_neighbors(cells: Cells, n: Neighbors, p: Point) -> nat {
    live_count(cells, p.neighbors_of(n, cells.len() - 1))
}

/// The cell at `p` one generation after `cells`.
pub open spec fn next_cell(cells: Cells, rule: RuleView, p: Point) -> CellStatus {
    cell_at(cells, p).next(rule, live_neighbors(cells, rule.neighbors, p) as int)
}

/// The generation after `cells`.
pub open spec fn successor(cells: Cells, rule: RuleView) -> Cells {
    Seq::new(
        cells.len(),
        |x: int|
            Seq::new(
                cells.len(),
                |y: int|
                    Seq::new(
                        cells.len(),
                        |z: int|
                            next_cell(
                                cells,
                                rule,
                                Point { x: x as usize, y: y as usize, z: z as usize },
                            ),
                    ),
            ),
    )
}

/// The generation after a lattice is a lattice of the same side, and its
/// cell at each point is what the cell at that point in `cells` becomes,
/// given the number of that cell's live neighbours in `cells`.
pub proof fn lemma_successor(cells: Cells, rule: RuleView)
    requires
        well_formed(cells),
        rule.valid(),
    ensures
        well_formed(successor(cells, rule)),
        successor(cells, rule).len() == cells.len(),
        forall|p: Point|
            p.within(cells.len() - 1) ==> cell_at(successor(cells, rule), p) == next_cell(
                cells,
                rule,
                p,
            ),
{
    let after = successor(cells, rule);
    assert forall|x: int, y: int, z: int|
        0 <= x < after.len() && 0 <= y < after.len() && 0 <= z < after.len() implies (
    #[trigger] after[x][y][z]).wf() by {
        let p = Point { x: x as usize, y: y as usize, z: z as usize };
        assert(cell_at(cells, p).wf());
    }
}

/// Whether `after` is a lattice of the side of `cells` in which every cell
/// is what the cell at its point in `cells` becomes under `rule`.
pub open spec fn follows(cells: Cells, rule: RuleView, after: Cells) -> bool {
    &&& well_formed(after)
    &&& after.len() == cells.len()
    &&& forall|p: Point|
        p.within(cells.len() - 1) ==> cell_at(after, p) == next_cell(cells, rule, p)
}

/// A lattice has one next generation under a rule: two lattices that both
/// follow it are the same, cell for cell, and are [`successor`].
pub proof fn lemma_successor_unique(cells: Cells, rule: RuleView, a: Cells, b: Cells)
    requires
        well_formed(cells),
        rule.valid(),
        follows(cells, rule, a),
        follows(cells, rule, b),
    ensures
        a == b,
        a == successor(cells, rule),
{
    lemma_successor(cells, rule);
    lemma_same_cells(a, b);
    lemma_same_cells(a, successor(cells, rule));
}

/// The live cells among `points` are counted alike in two lattices that have
/// live cells at the same points of them.
pub proof fn lemma_live_count_same(a: Cells, b: Cells, points: Seq<Point>)
    requires
        forall|i: int|
            0 <= i < points.len() ==> cell_at(a, #[trigger] points[i]).live() == cell_at(
                b,
                points[i],
            ).live(),
    ensures
        live_count(a, points) == live_count(b, points),
    decreases points.len(),
{
    if points.len() > 0 {
        lemma_live_count_same(a, b, points.drop_last());
    }
}

/// What a cell becomes depends on nothing but its own state and on which of
/// its neighbours are live: in two lattices of the same side that agree in
/// this at `p`, the cells at `p` become the same.
pub proof fn lemma_next_cell_local(a: Cells, b: Cells, rule: RuleView, p: Point)
    requires
        a.len() == b.len(),
        cell_at(a, p) == cell_at(b, p),
        forall|i: int|
            0 <= i < p.neighbors_of(rule.neighbors, a.len() - 1).len() ==> cell_at(
                a,
                #[trigger] p.neighbors_of(rule.neighbors, a.len() - 1)[i],
            ).live() == cell_at(b, p.neighbors_of(rule.neighbors, a.len() - 1)[i]).live(),
    ensures
        next_cell(a, rule, p) == next_cell(b, rule, p),
{
    lemma_live_count_same(a, b, p.neighbors_of(rule.neighbors, a.len() - 1));
}

/// No more cells are live among `points` than there are points.
pub proof fn lemma_live_count_bound(cells: Cells, points: Seq<Point>)
    ensures
        live_count(cells, points) <= points.len(),
    decreases points.len(),
{
    if points.len() > 0 {
        lemma_live_count_bound(cells, points.drop_last());
    }
}

/// A cell has at most 26 live neighbours, and at most 6 where only the
/// neighbours on the axes count.
pub proof fn lemma_live_neighbors_bound(cells: Cells, n: Neighbors, p: Point)
    ensures
        live_neighbors(cells, n, p) <= (if n is Moore { 26nat } else { 6nat }),
{
    lemma_live_count_bound(cells, p.neighbors_of(n, cells.len() - 1));
}

/// Whether every cell of `cells` is one that an automaton with `states`
/// states can hold: a decaying cell has between 1 and `states - 2`
/// generations left.
pub open spec fn fits(cells: Cells, states: u8) -> bool {
    forall|p: Point| p.within(cells.len() - 1) ==> (#[trigger] cell_at(cells, p)).fits(states)
}

/// Under one rule the cells stay within its states: if no cell has more
/// generations left than the rule gives a decaying cell, none has so in the
/// next generation.
pub proof fn lemma_successor_fits(cells: Cells, rule: RuleView)
    requires
        well_formed(cells),
        rule.valid(),
        fits(cells, rule.states),
    ensures
        fits(successor(cells, rule), rule.states),
{
    lemma_successor(cells, rule);
    let after = successor(cells, rule);
    assert forall|p: Point| p.within(after.len() - 1) implies (#[trigger] cell_at(after, p)).fits(
        rule.states,
    ) by {
        assert(cell_at(cells, p).fits(rule.states));
        assert(cell_at(after, p) == next_cell(cells, rule, p));
    }
}

/// The `i`-th point of a lattice of side `side`, in the order in which
/// [`Grid::iter`] visits them: z runs fastest, then y, then x.
pub open spec fn index_point(side: int, i: int) -> Point {
    Point { x: ((i / side) / side) as usize, y: ((i / side) % side) as usize, z: (i % side) as usize }
}

/// The place of the point `p` in that order.
pub open spec fn point_index(side: int, p: Point) -> int {
    (p.x * side + p.y) * side + p.z
}

/// The points of a lattice of side `side`, in the order in which
/// [`Grid::iter`] visits them.
pub open spec fn lattice_points(side: int) -> Seq<Point> {
    Seq::new((side * side * side) as nat, |i: int| index_point(side, i))
}

/// [`point_index`] undoes [`index_point`] and the other way round.
pub proof fn lemma_point_index(side: int, p: Point)
    requires
        1 <= side <= usize::MAX,
        p.within(side - 1),
    ensures
        0 <= point_index(side, p) < side * side * side,
        index_point(side, point_index(side, p)) == p,
{
    let i = point_index(side, p);
    let row = p.x * side + p.y;
    lemma_fundamental_div_mod_converse(i, side, row, p.z as int);
    lemma_fundamental_div_mod_converse(
        row,
        side,
        p.x as int,
        p.y as int,
    );
    assert(0 <= row && row * side + p.z < side * side * side) by (nonlinear_arith)
        requires
            row == p.x * side + p.y,
            0 <= p.x < side,
            0 <= p.y < side,
            0 <= p.z < side,
    ;
}

/// Every index below `side³` is the place of one point of the lattice.
pub proof fn lemma_index_point(side: int, i: int)
    requires
        1 <= side <= usize::MAX,
        0 <= i < side * side * side,
    ensures
        index_point(side, i).within(side - 1),
        point_index(side, index_point(side, i)) == i,
{
    let row = i / side;
    lemma_fundamental_div_mod(i, side);
    lemma_fundamental_div_mod(row, side);
    lemma_mod_bound(i, side);
    lemma_mod_bound(row, side);
    let x = row / side;
    assert(0 <= row && 0 <= x < side) by (nonlinear_arith)
        requires
            0 <= i < side * side * side,
            i == side * row + i % side,
            0 <= i % side < side,
            row == side * x + row % side,
            0 <= row % side < side,
            1 <= side,
    ;
    assert((x * side + row % side) * side + i % side == i) by (nonlinear_arith)
        requires
            i == side * row + i % side,
            row == side * x + row % side,
    ;
}

/// The points of a lattice with their cells, in the order of
/// [`lattice_points`].
pub open spec fn lattice_cells(cells: Cells) -> Seq<(Point, CellStatus)> {
    Seq::new(
        lattice_points(cells.len() as int).len(),
        |i: int|
            (
                lattice_points(cells.len() as int)[i],
                cell_at(cells, lattice_points(cells.len() as int)[i]),
            ),
    )
}

/// The points that [`Grid::iter`] visits are the points of the lattice, each
/// of them once.
pub proof fn lemma_lattice_points(side: int)
    requires
        1 <= side <= usize::MAX,
    ensures
        lattice_points(side).no_duplicates(),
        forall|p: Point| lattice_points(side).contains(p) <==> p.within(side - 1),
{
    let points = lattice_points(side);
    assert forall|i: int, j: int| 0 <= i < points.len() && 0 <= j < points.len() && i != j implies points[i]
        != points[j] by {
        lemma_index_point(side, i);
        lemma_index_point(side, j);
    }
    assert forall|p: Point| points.contains(p) <==> p.within(side - 1) by {
        if p.within(side - 1) {
            lemma_point_index(side, p);
            assert(points[point_index(side, p)] == p);
        }
        if points.contains(p) {
            let i = choose|i: int| 0 <= i < points.len() && points[i] == p;
            lemma_index_point(side, i);
        }
    }
}

/// The radius around the centre of a lattice within which
/// [`Grid::new_noise`] seeds live cells.
pub const SEED_RADIUS: usize = 10;

/// The centre of a lattice of side `side`.
pub open spec fn center(side: int) -> Point {
    Point { x: (side / 2) as usize, y: (side / 2) as usize, z: (side / 2) as usize }
}

/// Whether `p` is a point that [`Grid::new_noise`] may seed in a lattice of
/// side `side`: less than [`SEED_RADIUS`] away from the centre.
pub open spec fn seeded(side: int, p: Point) -> bool {
    dist_squared(p, center(side)) < SEED_RADIUS * SEED_RADIUS
}

} // verus!
