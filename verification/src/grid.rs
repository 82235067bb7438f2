//! Grid geometry, the invariants of a maze grid, and the trail-replay
//! machinery shared by the confirm and revert halves of a carve attempt.
//!
//! The grid is a flat row-major buffer of length `width * height`. A carve
//! attempt walks in 2-cell strides over the even-by-even interior lattice and
//! records its directions; replaying the record paints the seed, each stride's
//! midpoint and each stride's endpoint with one target value (`Wall` to
//! confirm, `Space` to revert).

use vstd::prelude::*;

use crate::cell::Cell;
use crate::dir::Dir;
use crate::dir::dir_dx;
use crate::dir::dir_dy;

verus! {

/// Row-major index of coordinate `(x, y)` in a grid `w` cells wide.
pub open spec fn sidx(w: int, x: int, y: int) -> int {
    y * w + x
}

/// `(x, y)` lies inside a `w` by `h` grid.
pub open spec fn in_grid(w: int, h: int, x: int, y: int) -> bool {
    0 <= x < w && 0 <= y < h
}

/// The cell stored at `(x, y)`.
pub open spec fn cell_at(s: Seq<Cell>, w: int, x: int, y: int) -> Cell {
    s[sidx(w, x, y)]
}

/// `(x, y)` lies on the outer ring of the grid.
pub open spec fn on_border(w: int, h: int, x: int, y: int) -> bool {
    x == 0 || y == 0 || x == w - 1 || y == h - 1
}

/// `(x, y)` is an interior lattice point: even in both axes and at least two
/// cells away from every border, so a 2-cell stride from it stays in the grid.
pub open spec fn on_lattice(w: int, h: int, x: int, y: int) -> bool {
    2 <= x <= w - 3 && 2 <= y <= h - 3 && x % 2 == 0 && y % 2 == 0
}

/// Admissible grid dimensions: both odd and large enough to hold one interior
/// lattice point, with a buffer length that fits the machine.
pub open spec fn valid_dims(w: int, h: int) -> bool {
    &&& w >= 5
    &&& h >= 5
    &&& w % 2 == 1
    &&& h % 2 == 1
    &&& w * h <= usize::MAX as int
}

/// Every cell of the outer ring is a permanent wall.
pub open spec fn borders_walled(s: Seq<Cell>, w: int, h: int) -> bool {
    forall|x: int, y: int|
        in_grid(w, h, x, y) && on_border(w, h, x, y) ==> #[trigger] cell_at(s, w, x, y)
            == Cell::Wall
}

/// No cell holds the transient `TempWall` marker.
pub open spec fn no_temp_walls(s: Seq<Cell>, w: int, h: int) -> bool {
    forall|x: int, y: int|
        in_grid(w, h, x, y) ==> #[trigger] cell_at(s, w, x, y) != Cell::TempWall
}

/// Cells odd in both axes are never touched by carving: they stay open.
pub open spec fn odd_cells_open(s: Seq<Cell>, w: int, h: int) -> bool {
    forall|x: int, y: int|
        in_grid(w, h, x, y) && x % 2 == 1 && y % 2 == 1 ==> #[trigger] cell_at(s, w, x, y)
            == Cell::Space
}

/// Lattice well-formedness of the carved walls: a wall on a doorway cell (odd
/// in exactly one axis) is always the midpoint of a stride, so the two lattice
/// cells it joins are walls as well. The flanking cells are stated by direct
/// buffer indexing: a `cell_at` term in the conclusion would re-trigger this
/// quantifier at the flanks and send the prover marching along the row.
pub open spec fn walls_paired(s: Seq<Cell>, w: int, h: int) -> bool {
    &&& forall|x: int, y: int|
        in_grid(w, h, x, y) && x % 2 == 1 && y % 2 == 0 && #[trigger] cell_at(s, w, x, y)
            == Cell::Wall ==> s[sidx(w, x - 1, y)] == Cell::Wall && s[sidx(w, x + 1, y)]
            == Cell::Wall
    &&& forall|x: int, y: int|
        in_grid(w, h, x, y) && x % 2 == 0 && y % 2 == 1 && #[trigger] cell_at(s, w, x, y)
            == Cell::Wall ==> s[sidx(w, x, y - 1)] == Cell::Wall && s[sidx(w, x, y + 1)]
            == Cell::Wall
}

/// No lattice wall stands alone: a wall on an interior lattice point is the
/// endpoint of some confirmed stride, so at least one of the four doorway
/// cells beside it is a wall too. (Direct indexing in the conclusion, for
/// the reason given on [`walls_paired`].)
pub open spec fn walls_attached(s: Seq<Cell>, w: int, h: int) -> bool {
    forall|x: int, y: int|
        on_lattice(w, h, x, y) && #[trigger] cell_at(s, w, x, y) == Cell::Wall ==> s[sidx(
            w,
            x - 1,
            y,
        )] == Cell::Wall || s[sidx(w, x + 1, y)] == Cell::Wall || s[sidx(w, x, y - 1)] == Cell::Wall
            || s[sidx(w, x, y + 1)] == Cell::Wall
}

/// The wall at `(x, y)` reaches the border ring in at most `k` steps, each
/// step moving to a 4-adjacent wall cell. (Direct indexing again, as on
/// [`walls_paired`].)
pub open spec fn wall_linked(s: Seq<Cell>, w: int, h: int, x: int, y: int, k: nat) -> bool
    decreases k,
{
    on_border(w, h, x, y) || (k > 0 && ((in_grid(w, h, x - 1, y) && s[sidx(w, x - 1, y)]
        == Cell::Wall && wall_linked(s, w, h, x - 1, y, (k - 1) as nat)) || (in_grid(w, h, x + 1, y)
        && s[sidx(w, x + 1, y)] == Cell::Wall && wall_linked(s, w, h, x + 1, y, (k - 1) as nat)) || (
    in_grid(w, h, x, y - 1) && s[sidx(w, x, y - 1)] == Cell::Wall && wall_linked(
        s,
        w,
        h,
        x,
        y - 1,
        (k - 1) as nat,
    )) || (in_grid(w, h, x, y + 1) && s[sidx(w, x, y + 1)] == Cell::Wall && wall_linked(
        s,
        w,
        h,
        x,
        y + 1,
        (k - 1) as nat,
    ))))
}

/// Every wall reaches the border ring through walls: the wall structure is
/// one component hanging off the outer ring, so the open region encloses no
/// free-standing wall island.
pub open spec fn walls_grounded(s: Seq<Cell>, w: int, h: int) -> bool {
    forall|x: int, y: int|
        in_grid(w, h, x, y) && #[trigger] cell_at(s, w, x, y) == Cell::Wall ==> exists|k: nat|
            wall_linked(s, w, h, x, y, k)
}

/// A cell beside a border-linked wall is itself border-linked, one step
/// farther out.
pub(crate) proof fn lemma_linked_step(
    s: Seq<Cell>,
    w: int,
    h: int,
    x: int,
    y: int,
    a: int,
    b: int,
    k: nat,
)
    requires
        in_grid(w, h, a, b),
        (a == x - 1 && b == y) || (a == x + 1 && b == y) || (a == x && b == y - 1) || (a == x && b
            == y + 1),
        s[sidx(w, a, b)] == Cell::Wall,
        wall_linked(s, w, h, a, b, k),
    ensures
        wall_linked(s, w, h, x, y, (k + 1) as nat),
{
}

/// Border-linkage survives any change that removes no wall.
pub(crate) proof fn lemma_linked_monotone(
    s1: Seq<Cell>,
    s2: Seq<Cell>,
    w: int,
    h: int,
    x: int,
    y: int,
    k: nat,
)
    requires
        wall_linked(s1, w, h, x, y, k),
        forall|a: int, b: int|
            in_grid(w, h, a, b) && #[trigger] cell_at(s1, w, a, b) == Cell::Wall ==> cell_at(
                s2,
                w,
                a,
                b,
            ) == Cell::Wall,
    ensures
        wall_linked(s2, w, h, x, y, k),
    decreases k,
{
    if !on_border(w, h, x, y) {
        if in_grid(w, h, x - 1, y) && s1[sidx(w, x - 1, y)] == Cell::Wall && wall_linked(
            s1,
            w,
            h,
            x - 1,
            y,
            (k - 1) as nat,
        ) {
            assert(cell_at(s1, w, x - 1, y) == Cell::Wall);
            assert(cell_at(s2, w, x - 1, y) == Cell::Wall);
            lemma_linked_monotone(s1, s2, w, h, x - 1, y, (k - 1) as nat);
        } else if in_grid(w, h, x + 1, y) && s1[sidx(w, x + 1, y)] == Cell::Wall && wall_linked(
            s1,
            w,
            h,
            x + 1,
            y,
            (k - 1) as nat,
        ) {
            assert(cell_at(s1, w, x + 1, y) == Cell::Wall);
            assert(cell_at(s2, w, x + 1, y) == Cell::Wall);
            lemma_linked_monotone(s1, s2, w, h, x + 1, y, (k - 1) as nat);
        } else if in_grid(w, h, x, y - 1) && s1[sidx(w, x, y - 1)] == Cell::Wall && wall_linked(
            s1,
            w,
            h,
            x,
            y - 1,
            (k - 1) as nat,
        ) {
            assert(cell_at(s1, w, x, y - 1) == Cell::Wall);
            assert(cell_at(s2, w, x, y - 1) == Cell::Wall);
            lemma_linked_monotone(s1, s2, w, h, x, y - 1, (k - 1) as nat);
        } else {
            assert(cell_at(s1, w, x, y + 1) == Cell::Wall);
            assert(cell_at(s2, w, x, y + 1) == Cell::Wall);
            lemma_linked_monotone(s1, s2, w, h, x, y + 1, (k - 1) as nat);
        }
    }
}

/// The standing invariant of a maze grid outside a carve attempt.
pub open spec fn maze_inv(s: Seq<Cell>, w: int, h: int) -> bool {
    &&& s.len() == w * h
    &&& borders_walled(s, w, h)
    &&& no_temp_walls(s, w, h)
    &&& odd_cells_open(s, w, h)
    &&& walls_paired(s, w, h)
    &&& walls_attached(s, w, h)
    &&& walls_grounded(s, w, h)
}

/// Every interior lattice point has been resolved to a wall.
pub open spec fn lattice_walled(s: Seq<Cell>, w: int, h: int) -> bool {
    forall|x: int, y: int|
        on_lattice(w, h, x, y) ==> #[trigger] cell_at(s, w, x, y) == Cell::Wall
}

/// X coordinate reached after replaying the first `i` strides of `trail`
/// from seed column `xs`.
pub(crate) open spec fn pos_x(xs: int, trail: Seq<Dir>, i: int) -> int
    decreases i,
{
    if i <= 0 {
        xs
    } else {
        pos_x(xs, trail, i - 1) + 2 * dir_dx(trail[i - 1])
    }
}

/// Y coordinate reached after replaying the first `i` strides of `trail`
/// from seed row `ys`.
pub(crate) open spec fn pos_y(ys: int, trail: Seq<Dir>, i: int) -> int
    decreases i,
{
    if i <= 0 {
        ys
    } else {
        pos_y(ys, trail, i - 1) + 2 * dir_dy(trail[i - 1])
    }
}

/// X coordinate of the doorway cell crossed by stride `i` (counted from 1).
pub(crate) open spec fn mid_x(xs: int, trail: Seq<Dir>, i: int) -> int {
    pos_x(xs, trail, i - 1) + dir_dx(trail[i - 1])
}

/// Y coordinate of the doorway cell crossed by stride `i` (counted from 1).
pub(crate) open spec fn mid_y(ys: int, trail: Seq<Dir>, i: int) -> int {
    pos_y(ys, trail, i - 1) + dir_dy(trail[i - 1])
}

/// `(x, y)` is one of the first `k` stride endpoints of the trail (the seed
/// counts as endpoint 0).
pub(crate) open spec fn hits_pos(xs: int, ys: int, trail: Seq<Dir>, k: int, x: int, y: int) -> bool {
    exists|i: int|
        0 <= i <= k && #[trigger] pos_x(xs, trail, i) == x && pos_y(ys, trail, i) == y
}

/// `(x, y)` is one of the first `k` stride midpoints of the trail.
pub(crate) open spec fn hits_mid(xs: int, ys: int, trail: Seq<Dir>, k: int, x: int, y: int) -> bool {
    exists|i: int|
        1 <= i <= k && #[trigger] mid_x(xs, trail, i) == x && mid_y(ys, trail, i) == y
}

/// `(x, y)` is painted by replaying the first `k` strides of the trail.
pub(crate) open spec fn on_trail_upto(xs: int, ys: int, trail: Seq<Dir>, k: int, x: int, y: int) -> bool {
    hits_pos(xs, ys, trail, k, x, y) || hits_mid(xs, ys, trail, k, x, y)
}

/// `(x, y)` is painted by replaying the whole trail.
pub(crate) open spec fn on_trail(xs: int, ys: int, trail: Seq<Dir>, x: int, y: int) -> bool {
    on_trail_upto(xs, ys, trail, trail.len() as int, x, y)
}

/// A row-major index of an in-grid coordinate lies inside the buffer.
pub(crate) proof fn lemma_sidx_bounds(w: int, h: int, x: int, y: int)
    requires
        in_grid(w, h, x, y),
    ensures
        0 <= sidx(w, x, y) < w * h,
{
    assert(0 <= y * w + x < w * h) by (nonlinear_arith)
        requires
            0 <= x < w,
            0 <= y < h,
    ;
}

/// Row-major indexing is injective over in-grid coordinates.
pub(crate) proof fn lemma_sidx_injective(w: int, h: int, x1: int, y1: int, x2: int, y2: int)
    requires
        in_grid(w, h, x1, y1),
        in_grid(w, h, x2, y2),
        sidx(w, x1, y1) == sidx(w, x2, y2),
    ensures
        x1 == x2 && y1 == y2,
{
    assert(x1 == x2 && y1 == y2) by (nonlinear_arith)
        requires
            0 <= x1 < w,
            0 <= x2 < w,
            0 <= y1 < h,
            0 <= y2 < h,
            y1 * w + x1 == y2 * w + x2,
    ;
}

/// Appending a stride leaves all earlier replay positions unchanged.
pub(crate) proof fn lemma_pos_push(xs: int, ys: int, trail: Seq<Dir>, d: Dir, i: int)
    requires
        0 <= i <= trail.len(),
    ensures
        pos_x(xs, trail.push(d), i) == pos_x(xs, trail, i),
        pos_y(ys, trail.push(d), i) == pos_y(ys, trail, i),
    decreases i,
{
    if i > 0 {
        lemma_pos_push(xs, ys, trail, d, i - 1);
        assert(trail.push(d)[i - 1] == trail[i - 1]);
    }
}

/// Appending a stride keeps every earlier endpoint and midpoint in place and
/// adds one new midpoint and one new endpoint.
pub(crate) proof fn lemma_push_all(xs: int, ys: int, trail: Seq<Dir>, d: Dir)
    ensures
        forall|i: int|
            #![trigger pos_x(xs, trail.push(d), i)]
            #![trigger pos_y(ys, trail.push(d), i)]
            0 <= i <= trail.len() ==> pos_x(xs, trail.push(d), i) == pos_x(xs, trail, i) && pos_y(
                ys,
                trail.push(d),
                i,
            ) == pos_y(ys, trail, i),
        forall|i: int|
            #![trigger mid_x(xs, trail.push(d), i)]
            #![trigger mid_y(ys, trail.push(d), i)]
            1 <= i <= trail.len() ==> mid_x(xs, trail.push(d), i) == mid_x(xs, trail, i) && mid_y(
                ys,
                trail.push(d),
                i,
            ) == mid_y(ys, trail, i),
        pos_x(xs, trail.push(d), trail.len() as int + 1) == pos_x(xs, trail, trail.len() as int) + 2
            * dir_dx(d),
        pos_y(ys, trail.push(d), trail.len() as int + 1) == pos_y(ys, trail, trail.len() as int) + 2
            * dir_dy(d),
        mid_x(xs, trail.push(d), trail.len() as int + 1) == pos_x(xs, trail, trail.len() as int) + dir_dx(
            d,
        ),
        mid_y(ys, trail.push(d), trail.len() as int + 1) == pos_y(ys, trail, trail.len() as int) + dir_dy(
            d,
        ),
{
    assert forall|i: int|
        #![trigger pos_x(xs, trail.push(d), i)]
        #![trigger pos_y(ys, trail.push(d), i)]
        0 <= i <= trail.len() implies pos_x(xs, trail.push(d), i) == pos_x(xs, trail, i) && pos_y(
        ys,
        trail.push(d),
        i,
    ) == pos_y(ys, trail, i) by {
        lemma_pos_push(xs, ys, trail, d, i);
    }
    assert forall|i: int|
        #![trigger mid_x(xs, trail.push(d), i)]
        #![trigger mid_y(ys, trail.push(d), i)]
        1 <= i <= trail.len() implies mid_x(xs, trail.push(d), i) == mid_x(xs, trail, i) && mid_y(
        ys,
        trail.push(d),
        i,
    ) == mid_y(ys, trail, i) by {
        lemma_pos_push(xs, ys, trail, d, i - 1);
        assert(trail.push(d)[i - 1] == trail[i - 1]);
    }
    lemma_pos_push(xs, ys, trail, d, trail.len() as int);
    assert(trail.push(d)[trail.len() as int] == d);
}

/// Extending the replayed prefix by one stride covers exactly the new
/// midpoint and the new endpoint beyond what the shorter prefix covers.
pub(crate) proof fn lemma_upto_step(xs: int, ys: int, trail: Seq<Dir>, k: int, x: int, y: int)
    requires
        0 <= k < trail.len(),
    ensures
        on_trail_upto(xs, ys, trail, k + 1, x, y) <==> (on_trail_upto(xs, ys, trail, k, x, y) || (x
            == pos_x(xs, trail, k + 1) && y == pos_y(ys, trail, k + 1)) || (x == mid_x(
            xs,
            trail,
            k + 1,
        ) && y == mid_y(ys, trail, k + 1))),
{
    if on_trail_upto(xs, ys, trail, k + 1, x, y) {
        if hits_pos(xs, ys, trail, k + 1, x, y) {
            let i = choose|i: int|
                0 <= i <= k + 1 && #[trigger] pos_x(xs, trail, i) == x && pos_y(ys, trail, i) == y;
            if i <= k {
                assert(hits_pos(xs, ys, trail, k, x, y));
            }
        } else {
            let i = choose|i: int|
                1 <= i <= k + 1 && #[trigger] mid_x(xs, trail, i) == x && mid_y(ys, trail, i) == y;
            if i <= k {
                assert(hits_mid(xs, ys, trail, k, x, y));
            }
        }
    }
    if x == pos_x(xs, trail, k + 1) && y == pos_y(ys, trail, k + 1) {
        assert(hits_pos(xs, ys, trail, k + 1, x, y));
    }
    if x == mid_x(xs, trail, k + 1) && y == mid_y(ys, trail, k + 1) {
        assert(hits_mid(xs, ys, trail, k + 1, x, y));
    }
    if on_trail_upto(xs, ys, trail, k, x, y) {
        if hits_pos(xs, ys, trail, k, x, y) {
            let i = choose|i: int|
                0 <= i <= k && #[trigger] pos_x(xs, trail, i) == x && pos_y(ys, trail, i) == y;
            assert(hits_pos(xs, ys, trail, k + 1, x, y));
        } else {
            let i = choose|i: int|
                1 <= i <= k && #[trigger] mid_x(xs, trail, i) == x && mid_y(ys, trail, i) == y;
            assert(hits_mid(xs, ys, trail, k + 1, x, y));
        }
    }
}

/// Reads the cell at `(x, y)`.
pub(crate) fn get_cell(cells: &Vec<Cell>, w: usize, h: usize, x: usize, y: usize) -> (c: Cell)
    requires
        cells@.len() == w * h,
        in_grid(w as int, h as int, x as int, y as int),
    ensures
        c == cell_at(cells@, w as int, x as int, y as int),
{
    proof {
        lemma_sidx_bounds(w as int, h as int, x as int, y as int);
    }
    let n = cells.len();
    cells[y * w + x]
}

/// Writes `c` at `(x, y)`, leaving every other cell unchanged.
pub(crate) fn set_cell(cells: &mut Vec<Cell>, w: usize, h: usize, x: usize, y: usize, c: Cell)
    requires
        old(cells)@.len() == w * h,
        in_grid(w as int, h as int, x as int, y as int),
    ensures
        final(cells)@.len() == w * h,
        forall|x2: int, y2: int|
            in_grid(w as int, h as int, x2, y2) ==> #[trigger] cell_at(
                final(cells)@,
                w as int,
                x2,
                y2,
            ) == if x2 == x as int && y2 == y as int {
                c
            } else {
                cell_at(old(cells)@, w as int, x2, y2)
            },
{
    proof {
        lemma_sidx_bounds(w as int, h as int, x as int, y as int);
    }
    let n = cells.len();
    let i = y * w + x;
    cells[i] = c;
    proof {
        assert forall|x2: int, y2: int| in_grid(w as int, h as int, x2, y2) implies #[trigger] cell_at(
            cells@,
            w as int,
            x2,
            y2,
        ) == if x2 == x as int && y2 == y as int {
            c
        } else {
            cell_at(old(cells)@, w as int, x2, y2)
        } by {
            lemma_sidx_bounds(w as int, h as int, x2, y2);
            if x2 == x as int && y2 == y as int {
            } else {
                if sidx(w as int, x2, y2) == sidx(w as int, x as int, y as int) {
                    lemma_sidx_injective(w as int, h as int, x2, y2, x as int, y as int);
                }
            }
        }
    }
}

/// Builds the starting grid: all cells open, then the outer ring forced to
/// permanent wall.
pub(crate) fn init_grid(w: usize, h: usize) -> (cells: Vec<Cell>)
    requires
        valid_dims(w as int, h as int),
    ensures
        cells@.len() == w * h,
        forall|x: int, y: int|
            in_grid(w as int, h as int, x, y) ==> #[trigger] cell_at(cells@, w as int, x, y)
                == if on_border(w as int, h as int, x, y) {
                Cell::Wall
            } else {
                Cell::Space
            },
{
    let n = w * h;
    let mut cells: Vec<Cell> = Vec::new();
    let mut j: usize = 0;
    while j < n
        invariant
            cells@.len() == j,
            j <= n,
            n == w * h,
            forall|i: int| 0 <= i < j ==> cells@[i] == Cell::Space,
        decreases n - j,
    {
        cells.push(Cell::Space);
        j = j + 1;
    }
    proof {
        assert forall|x: int, y: int| in_grid(w as int, h as int, x, y) implies #[trigger] cell_at(
            cells@,
            w as int,
            x,
            y,
        ) == Cell::Space by {
            lemma_sidx_bounds(w as int, h as int, x, y);
        }
    }
    let mut x: usize = 0;
    while x < w
        invariant
            cells@.len() == w * h,
            x <= w,
            valid_dims(w as int, h as int),
            forall|x2: int, y2: int|
                in_grid(w as int, h as int, x2, y2) ==> #[trigger] cell_at(cells@, w as int, x2, y2)
                    == if (y2 == 0 || y2 == h - 1) && x2 < x {
                    Cell::Wall
                } else {
                    Cell::Space
                },
        decreases w - x,
    {
        set_cell(&mut cells, w, h, x, 0, Cell::Wall);
        set_cell(&mut cells, w, h, x, h - 1, Cell::Wall);
        x = x + 1;
    }
    let mut y: usize = 0;
    while y < h
        invariant
            cells@.len() == w * h,
            y <= h,
            valid_dims(w as int, h as int),
            forall|x2: int, y2: int|
                in_grid(w as int, h as int, x2, y2) ==> #[trigger] cell_at(cells@, w as int, x2, y2)
                    == if y2 == 0 || y2 == h - 1 || ((x2 == 0 || x2 == w - 1) && y2 < y) {
                    Cell::Wall
                } else {
                    Cell::Space
                },
        decreases h - y,
    {
        set_cell(&mut cells, w, h, 0, y, Cell::Wall);
        set_cell(&mut cells, w, h, w - 1, y, Cell::Wall);
        y = y + 1;
    }
    cells
}

/// Replays `trail` from the seed `(xs, ys)`, painting the seed and every
/// stride's midpoint and endpoint with `c`. This one routine is both halves
/// of a carve attempt's resolution: `Wall` confirms the trail, `Space`
/// reverts it.
pub(crate) fn paint_trail(
    cells: &mut Vec<Cell>,
    w: usize,
    h: usize,
    xs: usize,
    ys: usize,
    trail: &Vec<Dir>,
    c: Cell,
)
    requires
        old(cells)@.len() == w * h,
        forall|i: int|
            0 <= i <= trail@.len() ==> in_grid(
                w as int,
                h as int,
                #[trigger] pos_x(xs as int, trail@, i),
                pos_y(ys as int, trail@, i),
            ),
    ensures
        final(cells)@.len() == w * h,
        forall|x: int, y: int|
            in_grid(w as int, h as int, x, y) ==> #[trigger] cell_at(final(cells)@, w as int, x, y)
                == if on_trail(xs as int, ys as int, trail@, x, y) {
                c
            } else {
                cell_at(old(cells)@, w as int, x, y)
            },
{
    proof {
        assert(pos_x(xs as int, trail@, 0) == xs as int);
        assert(in_grid(w as int, h as int, xs as int, ys as int));
    }
    set_cell(cells, w, h, xs, ys, c);
    let mut x2 = xs;
    let mut y2 = ys;
    let mut k: usize = 0;
    while k < trail.len()
        invariant
            cells@.len() == w * h,
            k <= trail@.len(),
            x2 as int == pos_x(xs as int, trail@, k as int),
            y2 as int == pos_y(ys as int, trail@, k as int),
            forall|i: int|
                0 <= i <= trail@.len() ==> in_grid(
                    w as int,
                    h as int,
                    #[trigger] pos_x(xs as int, trail@, i),
                    pos_y(ys as int, trail@, i),
                ),
            forall|x: int, y: int|
                in_grid(w as int, h as int, x, y) ==> #[trigger] cell_at(cells@, w as int, x, y)
                    == if on_trail_upto(xs as int, ys as int, trail@, k as int, x, y) {
                    c
                } else {
                    cell_at(old(cells)@, w as int, x, y)
                },
        decreases trail@.len() - k,
    {
        let ghost pre = cells@;
        let d = trail[k];
        proof {
            assert(in_grid(
                w as int,
                h as int,
                pos_x(xs as int, trail@, k as int + 1),
                pos_y(ys as int, trail@, k as int + 1),
            ));
            assert(pos_x(xs as int, trail@, k as int + 1) == pos_x(xs as int, trail@, k as int) + 2
                * dir_dx(trail@[k as int]));
            assert(pos_y(ys as int, trail@, k as int + 1) == pos_y(ys as int, trail@, k as int) + 2
                * dir_dy(trail@[k as int]));
        }
        let mx: usize;
        let my: usize;
        let nx: usize;
        let ny: usize;
        match d {
            Dir::Up => {
                mx = x2;
                my = y2 - 1;
                nx = x2;
                ny = y2 - 2;
            },
            Dir::Right => {
                mx = x2 + 1;
                my = y2;
                nx = x2 + 2;
                ny = y2;
            },
            Dir::Down => {
                mx = x2;
                my = y2 + 1;
                nx = x2;
                ny = y2 + 2;
            },
            Dir::Left => {
                mx = x2 - 1;
                my = y2;
                nx = x2 - 2;
                ny = y2;
            },
        }
        proof {
            assert(nx as int == pos_x(xs as int, trail@, k as int + 1));
            assert(ny as int == pos_y(ys as int, trail@, k as int + 1));
            assert(mx as int == mid_x(xs as int, trail@, k as int + 1));
            assert(my as int == mid_y(ys as int, trail@, k as int + 1));
            assert(in_grid(w as int, h as int, mx as int, my as int));
        }
        set_cell(cells, w, h, mx, my, c);
        set_cell(cells, w, h, nx, ny, c);
        proof {
            assert forall|x: int, y: int| in_grid(w as int, h as int, x, y) implies #[trigger] cell_at(
                cells@,
                w as int,
                x,
                y,
            ) == if on_trail_upto(xs as int, ys as int, trail@, k as int + 1, x, y) {
                c
            } else {
                cell_at(old(cells)@, w as int, x, y)
            } by {
                lemma_upto_step(xs as int, ys as int, trail@, k as int, x, y);
            }
        }
        x2 = nx;
        y2 = ny;
        k = k + 1;
    }
}

} // verus!
