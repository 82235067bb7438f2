//! The maze type and the carving construction.
//!
//! Generation seeds a wall segment at every interior lattice point. From a
//! seed it walks in random 2-cell strides, marking visited lattice cells with
//! the transient `TempWall`. Hitting permanent wall confirms the whole trail
//! (repainting it `Wall`, doorway midpoints included); hitting the transient
//! trail aborts the attempt and reverts every marked cell to `Space`, and the
//! attempt restarts. A step budget bounds the total number of draws, since a
//! degenerate direction source could otherwise walk forever.

use vstd::prelude::*;

use crate::cell::Cell;
use crate::cell::cell_byte;
use crate::cell::cell_to_byte;
use crate::dir::Dir;
use crate::dir::DirectionSource;
use crate::dir::dir_dx;
use crate::dir::dir_dy;
use crate::grid::borders_walled;
use crate::grid::cell_at;
use crate::grid::get_cell;
use crate::grid::hits_mid;
use crate::grid::hits_pos;
use crate::grid::in_grid;
use crate::grid::init_grid;
use crate::grid::lattice_walled;
use crate::grid::lemma_pos_push;
use crate::grid::lemma_push_all;
use crate::grid::maze_inv;
use crate::grid::mid_x;
use crate::grid::mid_y;
use crate::grid::odd_cells_open;
use crate::grid::on_border;
use crate::grid::on_lattice;
use crate::grid::on_trail;
use crate::grid::paint_trail;
use crate::grid::pos_x;
use crate::grid::pos_y;
use crate::grid::set_cell;
use crate::grid::sidx;
use crate::grid::valid_dims;
use crate::grid::lemma_linked_monotone;
use crate::grid::lemma_linked_step;
use crate::grid::wall_linked;
use crate::grid::walls_attached;
use crate::grid::walls_grounded;
use crate::grid::walls_paired;

verus! {

/// Grid width of the reference configuration.
pub const GRID_WIDTH: usize = 109;

/// Grid height of the reference configuration.
pub const GRID_HEIGHT: usize = 69;

/// Default draw budget used by the zero-configuration constructor.
pub const DEFAULT_STEP_LIMIT: u64 = 100000000;

/// Every direction is a unit step along exactly one axis.
proof fn lemma_dir_unit(d: Dir)
    ensures
        (dir_dx(d) == 0 && (dir_dy(d) == 1 || dir_dy(d) == -1)) || (dir_dy(d) == 0 && (dir_dx(d)
            == 1 || dir_dx(d) == -1)),
{
    match d {
        Dir::Up => {},
        Dir::Right => {},
        Dir::Down => {},
        Dir::Left => {},
    }
}

/// Stride `i` of the trail joins two cells two apart along one axis, and its
/// doorway midpoint is the cell between them.
pub(crate) open spec fn stride_frame(xs: int, ys: int, trail: Seq<Dir>, i: int) -> bool {
    let px = pos_x(xs, trail, i - 1);
    let py = pos_y(ys, trail, i - 1);
    let qx = pos_x(xs, trail, i);
    let qy = pos_y(ys, trail, i);
    let mx = mid_x(xs, trail, i);
    let my = mid_y(ys, trail, i);
    (py == qy && my == py && (qx == px + 2 || qx == px - 2) && (mx == px + 1 || mx == px - 1) && (qx
        == px + 2 ==> mx == px + 1) && (qx == px - 2 ==> mx == px - 1)) || (px == qx && mx == px && (
    qy == py + 2 || qy == py - 2) && (my == py + 1 || my == py - 1) && (qy == py + 2 ==> my == py
        + 1) && (qy == py - 2 ==> my == py - 1))
}

/// Each stride of any trail has the shape of [`stride_frame`].
proof fn lemma_stride_shape(xs: int, ys: int, trail: Seq<Dir>, i: int)
    requires
        1 <= i <= trail.len(),
    ensures
        stride_frame(xs, ys, trail, i),
{
    lemma_dir_unit(trail[i - 1]);
    assert(pos_x(xs, trail, i) == pos_x(xs, trail, i - 1) + 2 * dir_dx(trail[i - 1]));
    assert(pos_y(ys, trail, i) == pos_y(ys, trail, i - 1) + 2 * dir_dy(trail[i - 1]));
}

/// The state of the grid while a carve attempt's walk is in progress: the
/// seed and all stride endpoints reached so far are exactly the `TempWall`
/// cells, they lie on the interior lattice, every doorway midpoint along the
/// trail is still open, and every standing grid invariant except the absence
/// of transient markers is intact.
pub(crate) open spec fn walk_inv(s: Seq<Cell>, w: int, h: int, xs: int, ys: int, trail: Seq<Dir>) -> bool {
    &&& s.len() == w * h
    &&& forall|i: int|
        #![trigger pos_x(xs, trail, i)]
        #![trigger pos_y(ys, trail, i)]
        0 <= i <= trail.len() ==> on_lattice(w, h, pos_x(xs, trail, i), pos_y(ys, trail, i)) && s[
            sidx(w, pos_x(xs, trail, i), pos_y(ys, trail, i))
        ] == Cell::TempWall
    &&& forall|i: int|
        #![trigger mid_x(xs, trail, i)]
        #![trigger mid_y(ys, trail, i)]
        1 <= i <= trail.len() ==> s[sidx(w, mid_x(xs, trail, i), mid_y(ys, trail, i))]
            == Cell::Space
    &&& forall|x: int, y: int|
        in_grid(w, h, x, y) && #[trigger] cell_at(s, w, x, y) == Cell::TempWall ==> hits_pos(
            xs,
            ys,
            trail,
            trail.len() as int,
            x,
            y,
        )
    &&& borders_walled(s, w, h)
    &&& odd_cells_open(s, w, h)
    &&& walls_paired(s, w, h)
    &&& walls_attached(s, w, h)
    &&& walls_grounded(s, w, h)
}

/// The situation at the moment a walk's newest stride, in direction `d`, has
/// landed on `(nx, ny)` and the attempt is about to be resolved or extended.
pub(crate) open spec fn resolve_ctx(
    s1: Seq<Cell>,
    w: int,
    h: int,
    xs: int,
    ys: int,
    trail0: Seq<Dir>,
    d: Dir,
    nx: int,
    ny: int,
) -> bool {
    &&& valid_dims(w, h)
    &&& on_lattice(w, h, xs, ys)
    &&& walk_inv(s1, w, h, xs, ys, trail0)
    &&& nx == pos_x(xs, trail0, trail0.len() as int) + 2 * dir_dx(d)
    &&& ny == pos_y(ys, trail0, trail0.len() as int) + 2 * dir_dy(d)
    &&& in_grid(w, h, nx, ny)
}

/// Endpoint geometry of the full trail: every replay endpoint is an even
/// in-grid cell, all but possibly the last lie on the lattice and carry the
/// transient marker, and the last is `(nx, ny)`.
#[verifier::spinoff_prover]
#[verifier::rlimit(60)]
proof fn lemma_geo(
    s1: Seq<Cell>,
    w: int,
    h: int,
    xs: int,
    ys: int,
    trail0: Seq<Dir>,
    d: Dir,
    nx: int,
    ny: int,
)
    requires
        resolve_ctx(s1, w, h, xs, ys, trail0, d, nx, ny),
    ensures
        pos_x(xs, trail0.push(d), trail0.len() as int + 1) == nx,
        pos_y(ys, trail0.push(d), trail0.len() as int + 1) == ny,
        forall|i: int|
            #![trigger pos_x(xs, trail0.push(d), i)]
            #![trigger pos_y(ys, trail0.push(d), i)]
            0 <= i <= trail0.len() ==> pos_x(xs, trail0.push(d), i) == pos_x(xs, trail0, i)
                && pos_y(ys, trail0.push(d), i) == pos_y(ys, trail0, i) && on_lattice(
                w,
                h,
                pos_x(xs, trail0.push(d), i),
                pos_y(ys, trail0.push(d), i),
            ) && s1[sidx(w, pos_x(xs, trail0.push(d), i), pos_y(ys, trail0.push(d), i))]
                == Cell::TempWall,
        forall|i: int|
            #![trigger pos_x(xs, trail0.push(d), i)]
            #![trigger pos_y(ys, trail0.push(d), i)]
            0 <= i <= trail0.len() + 1 ==> in_grid(
                w,
                h,
                pos_x(xs, trail0.push(d), i),
                pos_y(ys, trail0.push(d), i),
            ) && pos_x(xs, trail0.push(d), i) % 2 == 0 && pos_y(ys, trail0.push(d), i) % 2 == 0,
{
    let trail = trail0.push(d);
    let n = trail0.len() as int;
    lemma_push_all(xs, ys, trail0, d);
    assert forall|i: int|
        #![trigger pos_x(xs, trail, i)]
        #![trigger pos_y(ys, trail, i)]
        0 <= i <= n + 1 implies in_grid(w, h, pos_x(xs, trail, i), pos_y(ys, trail, i)) && pos_x(
        xs,
        trail,
        i,
    ) % 2 == 0 && pos_y(ys, trail, i) % 2 == 0 by {
        if i <= n {
            assert(on_lattice(w, h, pos_x(xs, trail0, i), pos_y(ys, trail0, i)));
        } else {
            assert(on_lattice(w, h, pos_x(xs, trail0, n), pos_y(ys, trail0, n)));
            lemma_dir_unit(d);
        }
    }
}

/// When the walk's destination is not a permanent wall it lies on the
/// interior lattice (borders are permanent walls, and strides keep both
/// coordinates even).
#[verifier::spinoff_prover]
#[verifier::rlimit(60)]
proof fn lemma_dest_lattice(
    s1: Seq<Cell>,
    w: int,
    h: int,
    xs: int,
    ys: int,
    trail0: Seq<Dir>,
    d: Dir,
    nx: int,
    ny: int,
)
    requires
        resolve_ctx(s1, w, h, xs, ys, trail0, d, nx, ny),
        cell_at(s1, w, nx, ny) != Cell::Wall,
    ensures
        on_lattice(w, h, nx, ny),
{
    lemma_geo(s1, w, h, xs, ys, trail0, d, nx, ny);
    let n = trail0.len() as int;
    assert(nx == pos_x(xs, trail0.push(d), n + 1));
    assert(nx % 2 == 0 && ny % 2 == 0);
    if on_border(w, h, nx, ny) {
        assert(cell_at(s1, w, nx, ny) == Cell::Wall);
    }
    assert(1 <= nx <= w - 2 && 1 <= ny <= h - 2);
    assert(nx != w - 2 && ny != h - 2);
}

/// The doorway of the final stride is still open: transients sit on the even
/// lattice, and a walled doorway would force its flanking lattice cells to be
/// walls, yet one flank is the transient trail head.
#[verifier::spinoff_prover]
#[verifier::rlimit(60)]
proof fn lemma_last_doorway(
    s1: Seq<Cell>,
    w: int,
    h: int,
    xs: int,
    ys: int,
    trail0: Seq<Dir>,
    d: Dir,
    nx: int,
    ny: int,
)
    requires
        resolve_ctx(s1, w, h, xs, ys, trail0, d, nx, ny),
    ensures
        stride_frame(xs, ys, trail0.push(d), trail0.len() as int + 1),
        1 <= mid_x(xs, trail0.push(d), trail0.len() as int + 1) <= w - 2,
        1 <= mid_y(ys, trail0.push(d), trail0.len() as int + 1) <= h - 2,
        cell_at(
            s1,
            w,
            mid_x(xs, trail0.push(d), trail0.len() as int + 1),
            mid_y(ys, trail0.push(d), trail0.len() as int + 1),
        ) == Cell::Space,
{
    let trail = trail0.push(d);
    let n = trail0.len() as int;
    lemma_geo(s1, w, h, xs, ys, trail0, d, nx, ny);
    lemma_stride_shape(xs, ys, trail, n + 1);
    let mx = mid_x(xs, trail, n + 1);
    let my = mid_y(ys, trail, n + 1);
    let px = pos_x(xs, trail, n);
    let py = pos_y(ys, trail, n);
    assert(on_lattice(w, h, px, py));
    assert(in_grid(w, h, mx, my));
    if cell_at(s1, w, mx, my) == Cell::TempWall {
        assert(hits_pos(xs, ys, trail0, n, mx, my));
        let j = choose|j: int|
            0 <= j <= n && #[trigger] pos_x(xs, trail0, j) == mx && pos_y(ys, trail0, j) == my;
        assert(on_lattice(w, h, pos_x(xs, trail0, j), pos_y(ys, trail0, j)));
        assert(false);
    }
    if cell_at(s1, w, mx, my) == Cell::Wall {
        assert(cell_at(s1, w, px, py) == Cell::TempWall);
        if my == py {
            assert(mx % 2 == 1 && my % 2 == 0);
            assert(cell_at(s1, w, mx - 1, my) == Cell::Wall && cell_at(s1, w, mx + 1, my)
                == Cell::Wall);
            assert(false);
        } else {
            assert(mx % 2 == 0 && my % 2 == 1);
            assert(cell_at(s1, w, mx, my - 1) == Cell::Wall && cell_at(s1, w, mx, my + 1)
                == Cell::Wall);
            assert(false);
        }
    }
}

/// Every transient cell of the grid is a replay endpoint of the full trail.
#[verifier::spinoff_prover]
#[verifier::rlimit(60)]
proof fn lemma_temp_on_trail(
    s1: Seq<Cell>,
    w: int,
    h: int,
    xs: int,
    ys: int,
    trail0: Seq<Dir>,
    d: Dir,
    nx: int,
    ny: int,
    x: int,
    y: int,
)
    requires
        resolve_ctx(s1, w, h, xs, ys, trail0, d, nx, ny),
        in_grid(w, h, x, y),
        cell_at(s1, w, x, y) == Cell::TempWall,
    ensures
        hits_pos(xs, ys, trail0.push(d), trail0.len() as int + 1, x, y),
        on_trail(xs, ys, trail0.push(d), x, y),
{
    let n = trail0.len() as int;
    assert(hits_pos(xs, ys, trail0, n, x, y));
    let j = choose|j: int|
        0 <= j <= n && #[trigger] pos_x(xs, trail0, j) == x && pos_y(ys, trail0, j) == y;
    lemma_pos_push(xs, ys, trail0, d, j);
    assert(pos_x(xs, trail0.push(d), j) == x && pos_y(ys, trail0.push(d), j) == y);
    assert(trail0.push(d).len() as int == n + 1);
}

/// What a painted cell was before painting: a transient marker, an open
/// cell, or the final destination itself.
#[verifier::spinoff_prover]
#[verifier::rlimit(60)]
proof fn lemma_trail_prestate(
    s1: Seq<Cell>,
    w: int,
    h: int,
    xs: int,
    ys: int,
    trail0: Seq<Dir>,
    d: Dir,
    nx: int,
    ny: int,
    x: int,
    y: int,
)
    requires
        resolve_ctx(s1, w, h, xs, ys, trail0, d, nx, ny),
        on_trail(xs, ys, trail0.push(d), x, y),
    ensures
        in_grid(w, h, x, y),
        cell_at(s1, w, x, y) == Cell::TempWall || cell_at(s1, w, x, y) == Cell::Space || (x == nx
            && y == ny),
        (x == nx && y == ny) || (1 <= x <= w - 2 && 1 <= y <= h - 2),
        !(x % 2 == 1 && y % 2 == 1),
{
    let trail = trail0.push(d);
    let n = trail0.len() as int;
    lemma_geo(s1, w, h, xs, ys, trail0, d, nx, ny);
    assert(trail.len() as int == n + 1);
    if hits_pos(xs, ys, trail, n + 1, x, y) {
        let i = choose|i: int|
            0 <= i <= n + 1 && #[trigger] pos_x(xs, trail, i) == x && pos_y(ys, trail, i) == y;
        assert(in_grid(w, h, pos_x(xs, trail, i), pos_y(ys, trail, i)));
        if i <= n {
            assert(on_lattice(w, h, pos_x(xs, trail, i), pos_y(ys, trail, i)));
            assert(cell_at(s1, w, x, y) == Cell::TempWall);
        } else {
            assert(x == nx && y == ny);
        }
    } else {
        assert(hits_mid(xs, ys, trail, n + 1, x, y));
        let i = choose|i: int|
            1 <= i <= n + 1 && #[trigger] mid_x(xs, trail, i) == x && mid_y(ys, trail, i) == y;
        lemma_stride_shape(xs, ys, trail, i);
        assert(on_lattice(w, h, pos_x(xs, trail, i - 1), pos_y(ys, trail, i - 1)));
        if i <= n {
            lemma_pos_push(xs, ys, trail0, d, i);
            lemma_pos_push(xs, ys, trail0, d, i - 1);
            assert(trail[i - 1] == trail0[i - 1]);
            assert(mid_x(xs, trail0, i) == x && mid_y(ys, trail0, i) == y);
            assert(cell_at(s1, w, x, y) == Cell::Space);
        } else {
            lemma_last_doorway(s1, w, h, xs, ys, trail0, d, nx, ny);
            assert(cell_at(s1, w, x, y) == Cell::Space);
        }
    }
}

/// A painted doorway cell (odd in exactly one axis) has both cells it joins
/// on the trail as well.
#[verifier::spinoff_prover]
#[verifier::rlimit(60)]
proof fn lemma_trail_doorway(
    s1: Seq<Cell>,
    w: int,
    h: int,
    xs: int,
    ys: int,
    trail0: Seq<Dir>,
    d: Dir,
    nx: int,
    ny: int,
    x: int,
    y: int,
)
    requires
        resolve_ctx(s1, w, h, xs, ys, trail0, d, nx, ny),
        on_trail(xs, ys, trail0.push(d), x, y),
        x % 2 == 1 || y % 2 == 1,
    ensures
        (x % 2 == 1 && y % 2 == 0 && in_grid(w, h, x - 1, y) && in_grid(w, h, x + 1, y) && on_trail(
            xs,
            ys,
            trail0.push(d),
            x - 1,
            y,
        ) && on_trail(xs, ys, trail0.push(d), x + 1, y)) || (x % 2 == 0 && y % 2 == 1 && in_grid(
            w,
            h,
            x,
            y - 1,
        ) && in_grid(w, h, x, y + 1) && on_trail(xs, ys, trail0.push(d), x, y - 1) && on_trail(
            xs,
            ys,
            trail0.push(d),
            x,
            y + 1,
        )),
{
    let trail = trail0.push(d);
    let n = trail0.len() as int;
    lemma_geo(s1, w, h, xs, ys, trail0, d, nx, ny);
    assert(trail.len() as int == n + 1);
    if hits_pos(xs, ys, trail, n + 1, x, y) {
        let i = choose|i: int|
            0 <= i <= n + 1 && #[trigger] pos_x(xs, trail, i) == x && pos_y(ys, trail, i) == y;
        assert(pos_x(xs, trail, i) % 2 == 0 && pos_y(ys, trail, i) % 2 == 0);
        assert(false);
    }
    assert(hits_mid(xs, ys, trail, n + 1, x, y));
    let i = choose|i: int|
        1 <= i <= n + 1 && #[trigger] mid_x(xs, trail, i) == x && mid_y(ys, trail, i) == y;
    lemma_stride_shape(xs, ys, trail, i);
    let px = pos_x(xs, trail, i - 1);
    let py = pos_y(ys, trail, i - 1);
    let qx = pos_x(xs, trail, i);
    let qy = pos_y(ys, trail, i);
    assert(in_grid(w, h, px, py) && in_grid(w, h, qx, qy));
    assert(px % 2 == 0 && py % 2 == 0 && qx % 2 == 0 && qy % 2 == 0);
    assert(hits_pos(xs, ys, trail, n + 1, px, py));
    assert(hits_pos(xs, ys, trail, n + 1, qx, qy));
    if py == qy && mid_y(ys, trail, i) == py {
        assert(x % 2 == 1 && y % 2 == 0);
        assert((px == x - 1 && qx == x + 1) || (px == x + 1 && qx == x - 1));
    } else {
        assert(x % 2 == 0 && y % 2 == 1);
        assert((py == y - 1 && qy == y + 1) || (py == y + 1 && qy == y - 1));
    }
}

/// The seed and the destination are on the trail.
#[verifier::spinoff_prover]
#[verifier::rlimit(60)]
proof fn lemma_ends_on_trail(
    s1: Seq<Cell>,
    w: int,
    h: int,
    xs: int,
    ys: int,
    trail0: Seq<Dir>,
    d: Dir,
    nx: int,
    ny: int,
)
    requires
        resolve_ctx(s1, w, h, xs, ys, trail0, d, nx, ny),
    ensures
        on_trail(xs, ys, trail0.push(d), xs, ys),
        on_trail(xs, ys, trail0.push(d), nx, ny),
{
    let trail = trail0.push(d);
    let n = trail0.len() as int;
    lemma_geo(s1, w, h, xs, ys, trail0, d, nx, ny);
    assert(trail.len() as int == n + 1);
    assert(0 <= 0 <= n + 1 && pos_x(xs, trail, 0) == xs && pos_y(ys, trail, 0) == ys);
    assert(hits_pos(xs, ys, trail, n + 1, xs, ys));
    assert(0 <= n + 1 <= n + 1 && pos_x(xs, trail, n + 1) == nx && pos_y(ys, trail, n + 1) == ny);
    assert(hits_pos(xs, ys, trail, n + 1, nx, ny));
}

/// A painted lattice endpoint has a painted doorway beside it: the doorway
/// of the stride that reached it, or, for the seed, of the first stride away
/// from it.
#[verifier::spinoff_prover]
#[verifier::rlimit(60)]
proof fn lemma_trail_endpoint_attached(
    s1: Seq<Cell>,
    w: int,
    h: int,
    xs: int,
    ys: int,
    trail0: Seq<Dir>,
    d: Dir,
    nx: int,
    ny: int,
    x: int,
    y: int,
)
    requires
        resolve_ctx(s1, w, h, xs, ys, trail0, d, nx, ny),
        on_trail(xs, ys, trail0.push(d), x, y),
        x % 2 == 0 && y % 2 == 0,
    ensures
        (in_grid(w, h, x - 1, y) && on_trail(xs, ys, trail0.push(d), x - 1, y)) || (in_grid(
            w,
            h,
            x + 1,
            y,
        ) && on_trail(xs, ys, trail0.push(d), x + 1, y)) || (in_grid(w, h, x, y - 1) && on_trail(
            xs,
            ys,
            trail0.push(d),
            x,
            y - 1,
        )) || (in_grid(w, h, x, y + 1) && on_trail(xs, ys, trail0.push(d), x, y + 1)),
{
    let trail = trail0.push(d);
    let n = trail0.len() as int;
    lemma_geo(s1, w, h, xs, ys, trail0, d, nx, ny);
    assert(trail.len() as int == n + 1);
    if hits_mid(xs, ys, trail, n + 1, x, y) {
        let i = choose|i: int|
            1 <= i <= n + 1 && #[trigger] mid_x(xs, trail, i) == x && mid_y(ys, trail, i) == y;
        lemma_stride_shape(xs, ys, trail, i);
        assert(pos_x(xs, trail, i - 1) % 2 == 0 && pos_y(ys, trail, i - 1) % 2 == 0);
        assert(false);
    }
    assert(hits_pos(xs, ys, trail, n + 1, x, y));
    let i = choose|i: int|
        0 <= i <= n + 1 && #[trigger] pos_x(xs, trail, i) == x && pos_y(ys, trail, i) == y;
    let j: int = if i >= 1 {
        i
    } else {
        1
    };
    lemma_stride_shape(xs, ys, trail, j);
    let mx = mid_x(xs, trail, j);
    let my = mid_y(ys, trail, j);
    assert(1 <= j <= n + 1 && mid_x(xs, trail, j) == mx && mid_y(ys, trail, j) == my);
    assert(hits_mid(xs, ys, trail, n + 1, mx, my));
    assert(on_trail(xs, ys, trail, mx, my));
    assert(in_grid(w, h, pos_x(xs, trail, j - 1), pos_y(ys, trail, j - 1)));
    assert(in_grid(w, h, pos_x(xs, trail, j), pos_y(ys, trail, j)));
    assert((x == pos_x(xs, trail, j - 1) && y == pos_y(ys, trail, j - 1)) || (x == pos_x(
        xs,
        trail,
        j,
    ) && y == pos_y(ys, trail, j)));
    assert(in_grid(w, h, mx, my));
    assert((mx == x - 1 && my == y) || (mx == x + 1 && my == y) || (mx == x && my == y - 1) || (mx
        == x && my == y + 1));
}


/// Each cell of a freshly confirmed trail is border-linked in the painted
/// grid: the destination was already a linked wall, and every earlier
/// doorway and endpoint reaches it along the painted trail.
#[verifier::spinoff_prover]
#[verifier::rlimit(60)]
proof fn lemma_trail_linked(
    s1: Seq<Cell>,
    s2: Seq<Cell>,
    w: int,
    h: int,
    xs: int,
    ys: int,
    trail0: Seq<Dir>,
    d: Dir,
    nx: int,
    ny: int,
    i: int,
    kd: nat,
)
    requires
        resolve_ctx(s1, w, h, xs, ys, trail0, d, nx, ny),
        s2.len() == w * h,
        forall|x: int, y: int|
            in_grid(w, h, x, y) ==> #[trigger] cell_at(s2, w, x, y) == if on_trail(
                xs,
                ys,
                trail0.push(d),
                x,
                y,
            ) {
                Cell::Wall
            } else {
                cell_at(s1, w, x, y)
            },
        wall_linked(s2, w, h, nx, ny, kd),
        0 <= i <= trail0.len() + 1,
    ensures
        wall_linked(
            s2,
            w,
            h,
            pos_x(xs, trail0.push(d), i),
            pos_y(ys, trail0.push(d), i),
            (kd + 2 * (trail0.len() + 1 - i)) as nat,
        ),
        i >= 1 ==> wall_linked(
            s2,
            w,
            h,
            mid_x(xs, trail0.push(d), i),
            mid_y(ys, trail0.push(d), i),
            (kd + 2 * (trail0.len() + 1 - i) + 1) as nat,
        ),
    decreases trail0.len() + 1 - i,
{
    let trail = trail0.push(d);
    let n = trail0.len() as int;
    lemma_geo(s1, w, h, xs, ys, trail0, d, nx, ny);
    assert(trail.len() as int == n + 1);
    if i == n + 1 {
        assert(pos_x(xs, trail, i) == nx && pos_y(ys, trail, i) == ny);
    } else {
        lemma_trail_linked(s1, s2, w, h, xs, ys, trail0, d, nx, ny, i + 1, kd);
        lemma_stride_shape(xs, ys, trail, i + 1);
        let px = pos_x(xs, trail, i);
        let py = pos_y(ys, trail, i);
        let mx = mid_x(xs, trail, i + 1);
        let my = mid_y(ys, trail, i + 1);
        assert(1 <= i + 1 <= n + 1 && mid_x(xs, trail, i + 1) == mx && mid_y(ys, trail, i + 1)
            == my);
        assert(hits_mid(xs, ys, trail, n + 1, mx, my));
        assert(in_grid(w, h, pos_x(xs, trail, i), pos_y(ys, trail, i)));
        assert(in_grid(w, h, pos_x(xs, trail, i + 1), pos_y(ys, trail, i + 1)));
        assert(in_grid(w, h, mx, my));
        assert(cell_at(s2, w, mx, my) == Cell::Wall);
        assert(s2[sidx(w, mx, my)] == Cell::Wall);
        assert((mx == px - 1 && my == py) || (mx == px + 1 && my == py) || (mx == px && my == py
            - 1) || (mx == px && my == py + 1));
        lemma_linked_step(s2, w, h, px, py, mx, my, (kd + 2 * (n - i) + 1) as nat);
        assert(wall_linked(s2, w, h, px, py, (kd + 2 * (n + 1 - i)) as nat));
    }
    if i >= 1 {
        lemma_stride_shape(xs, ys, trail, i);
        let px = pos_x(xs, trail, i);
        let py = pos_y(ys, trail, i);
        let mx = mid_x(xs, trail, i);
        let my = mid_y(ys, trail, i);
        assert(0 <= i <= n + 1 && pos_x(xs, trail, i) == px && pos_y(ys, trail, i) == py);
        assert(hits_pos(xs, ys, trail, n + 1, px, py));
        assert(in_grid(w, h, px, py));
        assert(cell_at(s2, w, px, py) == Cell::Wall);
        assert(s2[sidx(w, px, py)] == Cell::Wall);
        assert((px == mx - 1 && py == my) || (px == mx + 1 && py == my) || (px == mx && py == my
            - 1) || (px == mx && py == my + 1));
        lemma_linked_step(s2, w, h, mx, my, px, py, (kd + 2 * (n + 1 - i)) as nat);
    }
}

/// Marking a fresh seed establishes the walk invariant for the empty trail.
#[verifier::spinoff_prover]
#[verifier::rlimit(60)]
proof fn lemma_seed_trail(s1: Seq<Cell>, s2: Seq<Cell>, w: int, h: int, xs: int, ys: int)
    requires
        valid_dims(w, h),
        on_lattice(w, h, xs, ys),
        maze_inv(s1, w, h),
        cell_at(s1, w, xs, ys) != Cell::Wall,
        s2.len() == w * h,
        forall|x: int, y: int|
            in_grid(w, h, x, y) ==> #[trigger] cell_at(s2, w, x, y) == if x == xs && y == ys {
                Cell::TempWall
            } else {
                cell_at(s1, w, x, y)
            },
    ensures
        walk_inv(s2, w, h, xs, ys, Seq::<Dir>::empty()),
        forall|x: int, y: int|
            in_grid(w, h, x, y) ==> (#[trigger] cell_at(s2, w, x, y) == Cell::Wall <==> cell_at(
                s1,
                w,
                x,
                y,
            ) == Cell::Wall),
{
    let e = Seq::<Dir>::empty();
    assert(pos_x(xs, e, 0) == xs && pos_y(ys, e, 0) == ys);
    assert(in_grid(w, h, xs, ys));
    assert(cell_at(s2, w, xs, ys) == Cell::TempWall);
    assert forall|i: int|
        #![trigger pos_x(xs, e, i)]
        #![trigger pos_y(ys, e, i)]
        0 <= i <= e.len() implies on_lattice(w, h, pos_x(xs, e, i), pos_y(ys, e, i)) && s2[sidx(
        w,
        pos_x(xs, e, i),
        pos_y(ys, e, i),
    )] == Cell::TempWall by {
        assert(i == 0);
    }
    assert forall|x: int, y: int|
        in_grid(w, h, x, y) && #[trigger] cell_at(s2, w, x, y) == Cell::TempWall implies hits_pos(
        xs,
        ys,
        e,
        e.len() as int,
        x,
        y,
    ) by {
        if x == xs && y == ys {
            assert(0 <= 0 <= 0 && pos_x(xs, e, 0) == x && pos_y(ys, e, 0) == y);
        } else {
            assert(cell_at(s1, w, x, y) == Cell::TempWall);
            assert(false);
        }
    }
    assert forall|x: int, y: int|
        in_grid(w, h, x, y) && x % 2 == 1 && y % 2 == 0 && #[trigger] cell_at(s2, w, x, y)
            == Cell::Wall implies s2[sidx(w, x - 1, y)] == Cell::Wall && s2[sidx(w, x + 1, y)]
        == Cell::Wall by {
        assert(cell_at(s1, w, x, y) == Cell::Wall);
        assert(in_grid(w, h, x - 1, y) && in_grid(w, h, x + 1, y));
        assert(cell_at(s1, w, x - 1, y) == Cell::Wall && cell_at(s1, w, x + 1, y) == Cell::Wall);
        assert(cell_at(s2, w, x - 1, y) == Cell::Wall && cell_at(s2, w, x + 1, y) == Cell::Wall);
    }
    assert forall|x: int, y: int|
        in_grid(w, h, x, y) && x % 2 == 0 && y % 2 == 1 && #[trigger] cell_at(s2, w, x, y)
            == Cell::Wall implies s2[sidx(w, x, y - 1)] == Cell::Wall && s2[sidx(w, x, y + 1)]
        == Cell::Wall by {
        assert(cell_at(s1, w, x, y) == Cell::Wall);
        assert(in_grid(w, h, x, y - 1) && in_grid(w, h, x, y + 1));
        assert(cell_at(s1, w, x, y - 1) == Cell::Wall && cell_at(s1, w, x, y + 1) == Cell::Wall);
        assert(cell_at(s2, w, x, y - 1) == Cell::Wall && cell_at(s2, w, x, y + 1) == Cell::Wall);
    }
    assert forall|x: int, y: int|
        on_lattice(w, h, x, y) && #[trigger] cell_at(s2, w, x, y) == Cell::Wall implies s2[sidx(
        w,
        x - 1,
        y,
    )] == Cell::Wall || s2[sidx(w, x + 1, y)] == Cell::Wall || s2[sidx(w, x, y - 1)]
        == Cell::Wall || s2[sidx(w, x, y + 1)] == Cell::Wall by {
        assert(in_grid(w, h, x, y));
        assert(in_grid(w, h, x - 1, y) && in_grid(w, h, x + 1, y) && in_grid(w, h, x, y - 1)
            && in_grid(w, h, x, y + 1));
        assert(cell_at(s1, w, x, y) == Cell::Wall);
        if s1[sidx(w, x - 1, y)] == Cell::Wall {
            assert(cell_at(s1, w, x - 1, y) == Cell::Wall);
            assert(cell_at(s2, w, x - 1, y) == Cell::Wall);
        }
        if s1[sidx(w, x + 1, y)] == Cell::Wall {
            assert(cell_at(s1, w, x + 1, y) == Cell::Wall);
            assert(cell_at(s2, w, x + 1, y) == Cell::Wall);
        }
        if s1[sidx(w, x, y - 1)] == Cell::Wall {
            assert(cell_at(s1, w, x, y - 1) == Cell::Wall);
            assert(cell_at(s2, w, x, y - 1) == Cell::Wall);
        }
        if s1[sidx(w, x, y + 1)] == Cell::Wall {
            assert(cell_at(s1, w, x, y + 1) == Cell::Wall);
            assert(cell_at(s2, w, x, y + 1) == Cell::Wall);
        }
    }
    assert forall|a: int, b: int|
        in_grid(w, h, a, b) && #[trigger] cell_at(s1, w, a, b) == Cell::Wall implies cell_at(
        s2,
        w,
        a,
        b,
    ) == Cell::Wall by {}
    assert forall|x: int, y: int|
        in_grid(w, h, x, y) && #[trigger] cell_at(s2, w, x, y) == Cell::Wall implies exists|k: nat|
        wall_linked(s2, w, h, x, y, k) by {
        assert(cell_at(s1, w, x, y) == Cell::Wall);
        let k0 = choose|k: nat| wall_linked(s1, w, h, x, y, k);
        lemma_linked_monotone(s1, s2, w, h, x, y, k0);
        assert(wall_linked(s2, w, h, x, y, k0));
    }
}

/// Painting the whole trail `Wall` after the walk hit permanent wall
/// restores the standing grid invariant, seals the seed, and removes no
/// existing wall.
#[verifier::spinoff_prover]
#[verifier::rlimit(60)]
proof fn lemma_confirm_trail(
    s1: Seq<Cell>,
    s2: Seq<Cell>,
    w: int,
    h: int,
    xs: int,
    ys: int,
    trail0: Seq<Dir>,
    d: Dir,
    nx: int,
    ny: int,
)
    requires
        resolve_ctx(s1, w, h, xs, ys, trail0, d, nx, ny),
        cell_at(s1, w, nx, ny) == Cell::Wall,
        s2.len() == w * h,
        forall|x: int, y: int|
            in_grid(w, h, x, y) ==> #[trigger] cell_at(s2, w, x, y) == if on_trail(
                xs,
                ys,
                trail0.push(d),
                x,
                y,
            ) {
                Cell::Wall
            } else {
                cell_at(s1, w, x, y)
            },
    ensures
        maze_inv(s2, w, h),
        cell_at(s2, w, xs, ys) == Cell::Wall,
        forall|x: int, y: int|
            in_grid(w, h, x, y) && #[trigger] cell_at(s1, w, x, y) == Cell::Wall ==> cell_at(
                s2,
                w,
                x,
                y,
            ) == Cell::Wall,
{
    let trail = trail0.push(d);
    lemma_ends_on_trail(s1, w, h, xs, ys, trail0, d, nx, ny);
    assert(in_grid(w, h, xs, ys));
    assert(cell_at(s2, w, xs, ys) == Cell::Wall);
    assert forall|x: int, y: int|
        in_grid(w, h, x, y) && on_border(w, h, x, y) implies #[trigger] cell_at(s2, w, x, y)
        == Cell::Wall by {
        assert(cell_at(s1, w, x, y) == Cell::Wall);
    }
    assert forall|x: int, y: int| in_grid(w, h, x, y) implies #[trigger] cell_at(s2, w, x, y)
        != Cell::TempWall by {
        if !on_trail(xs, ys, trail, x, y) && cell_at(s1, w, x, y) == Cell::TempWall {
            lemma_temp_on_trail(s1, w, h, xs, ys, trail0, d, nx, ny, x, y);
            assert(false);
        }
    }
    assert forall|x: int, y: int|
        in_grid(w, h, x, y) && x % 2 == 1 && y % 2 == 1 implies #[trigger] cell_at(s2, w, x, y)
        == Cell::Space by {
        if on_trail(xs, ys, trail, x, y) {
            lemma_trail_prestate(s1, w, h, xs, ys, trail0, d, nx, ny, x, y);
            assert(false);
        }
        assert(cell_at(s1, w, x, y) == Cell::Space);
    }
    assert forall|x: int, y: int|
        in_grid(w, h, x, y) && x % 2 == 1 && y % 2 == 0 && #[trigger] cell_at(s2, w, x, y)
            == Cell::Wall implies s2[sidx(w, x - 1, y)] == Cell::Wall && s2[sidx(w, x + 1, y)]
        == Cell::Wall by {
        if on_trail(xs, ys, trail, x, y) {
            lemma_trail_doorway(s1, w, h, xs, ys, trail0, d, nx, ny, x, y);
            assert(cell_at(s2, w, x - 1, y) == Cell::Wall);
            assert(cell_at(s2, w, x + 1, y) == Cell::Wall);
        } else {
            assert(cell_at(s1, w, x, y) == Cell::Wall);
            assert(in_grid(w, h, x - 1, y) && in_grid(w, h, x + 1, y));
            assert(cell_at(s1, w, x - 1, y) == Cell::Wall && cell_at(s1, w, x + 1, y)
                == Cell::Wall);
            assert(cell_at(s2, w, x - 1, y) == Cell::Wall);
            assert(cell_at(s2, w, x + 1, y) == Cell::Wall);
        }
    }
    assert forall|x: int, y: int|
        in_grid(w, h, x, y) && x % 2 == 0 && y % 2 == 1 && #[trigger] cell_at(s2, w, x, y)
            == Cell::Wall implies s2[sidx(w, x, y - 1)] == Cell::Wall && s2[sidx(w, x, y + 1)]
        == Cell::Wall by {
        if on_trail(xs, ys, trail, x, y) {
            lemma_trail_doorway(s1, w, h, xs, ys, trail0, d, nx, ny, x, y);
            assert(cell_at(s2, w, x, y - 1) == Cell::Wall);
            assert(cell_at(s2, w, x, y + 1) == Cell::Wall);
        } else {
            assert(cell_at(s1, w, x, y) == Cell::Wall);
            assert(in_grid(w, h, x, y - 1) && in_grid(w, h, x, y + 1));
            assert(cell_at(s1, w, x, y - 1) == Cell::Wall && cell_at(s1, w, x, y + 1)
                == Cell::Wall);
            assert(cell_at(s2, w, x, y - 1) == Cell::Wall);
            assert(cell_at(s2, w, x, y + 1) == Cell::Wall);
        }
    }
    assert forall|x: int, y: int|
        on_lattice(w, h, x, y) && #[trigger] cell_at(s2, w, x, y) == Cell::Wall implies s2[sidx(
        w,
        x - 1,
        y,
    )] == Cell::Wall || s2[sidx(w, x + 1, y)] == Cell::Wall || s2[sidx(w, x, y - 1)]
        == Cell::Wall || s2[sidx(w, x, y + 1)] == Cell::Wall by {
        assert(in_grid(w, h, x, y));
        assert(in_grid(w, h, x - 1, y) && in_grid(w, h, x + 1, y) && in_grid(w, h, x, y - 1)
            && in_grid(w, h, x, y + 1));
        if on_trail(xs, ys, trail, x, y) {
            lemma_trail_endpoint_attached(s1, w, h, xs, ys, trail0, d, nx, ny, x, y);
            if in_grid(w, h, x - 1, y) && on_trail(xs, ys, trail, x - 1, y) {
                assert(cell_at(s2, w, x - 1, y) == Cell::Wall);
            }
            if in_grid(w, h, x + 1, y) && on_trail(xs, ys, trail, x + 1, y) {
                assert(cell_at(s2, w, x + 1, y) == Cell::Wall);
            }
            if in_grid(w, h, x, y - 1) && on_trail(xs, ys, trail, x, y - 1) {
                assert(cell_at(s2, w, x, y - 1) == Cell::Wall);
            }
            if in_grid(w, h, x, y + 1) && on_trail(xs, ys, trail, x, y + 1) {
                assert(cell_at(s2, w, x, y + 1) == Cell::Wall);
            }
        } else {
            assert(cell_at(s1, w, x, y) == Cell::Wall);
            if s1[sidx(w, x - 1, y)] == Cell::Wall {
                assert(cell_at(s1, w, x - 1, y) == Cell::Wall);
                assert(cell_at(s2, w, x - 1, y) == Cell::Wall);
            }
            if s1[sidx(w, x + 1, y)] == Cell::Wall {
                assert(cell_at(s1, w, x + 1, y) == Cell::Wall);
                assert(cell_at(s2, w, x + 1, y) == Cell::Wall);
            }
            if s1[sidx(w, x, y - 1)] == Cell::Wall {
                assert(cell_at(s1, w, x, y - 1) == Cell::Wall);
                assert(cell_at(s2, w, x, y - 1) == Cell::Wall);
            }
            if s1[sidx(w, x, y + 1)] == Cell::Wall {
                assert(cell_at(s1, w, x, y + 1) == Cell::Wall);
                assert(cell_at(s2, w, x, y + 1) == Cell::Wall);
            }
        }
    }
    assert forall|a: int, b: int|
        in_grid(w, h, a, b) && #[trigger] cell_at(s1, w, a, b) == Cell::Wall implies cell_at(
        s2,
        w,
        a,
        b,
    ) == Cell::Wall by {}
    assert(trail.len() as int == trail0.len() as int + 1);
    let n = trail0.len() as int;
    assert(cell_at(s1, w, nx, ny) == Cell::Wall);
    let kd0 = choose|k: nat| wall_linked(s1, w, h, nx, ny, k);
    lemma_linked_monotone(s1, s2, w, h, nx, ny, kd0);
    assert forall|x: int, y: int|
        in_grid(w, h, x, y) && #[trigger] cell_at(s2, w, x, y) == Cell::Wall implies exists|k: nat|
        wall_linked(s2, w, h, x, y, k) by {
        if on_trail(xs, ys, trail, x, y) {
            if hits_pos(xs, ys, trail, n + 1, x, y) {
                let i = choose|i: int|
                    0 <= i <= n + 1 && #[trigger] pos_x(xs, trail, i) == x && pos_y(ys, trail, i)
                        == y;
                lemma_trail_linked(s1, s2, w, h, xs, ys, trail0, d, nx, ny, i, kd0);
                assert(wall_linked(s2, w, h, x, y, (kd0 + 2 * (n + 1 - i)) as nat));
            } else {
                assert(hits_mid(xs, ys, trail, n + 1, x, y));
                let i = choose|i: int|
                    1 <= i <= n + 1 && #[trigger] mid_x(xs, trail, i) == x && mid_y(ys, trail, i)
                        == y;
                lemma_trail_linked(s1, s2, w, h, xs, ys, trail0, d, nx, ny, i, kd0);
                assert(wall_linked(s2, w, h, x, y, (kd0 + 2 * (n + 1 - i) + 1) as nat));
            }
        } else {
            assert(cell_at(s1, w, x, y) == Cell::Wall);
            let k0 = choose|k: nat| wall_linked(s1, w, h, x, y, k);
            lemma_linked_monotone(s1, s2, w, h, x, y, k0);
            assert(wall_linked(s2, w, h, x, y, k0));
        }
    }
}

/// Reverting the whole trail to `Space` after the walk collided with its own
/// transient cells restores the standing grid invariant and removes no
/// existing wall.
#[verifier::spinoff_prover]
#[verifier::rlimit(60)]
proof fn lemma_revert_trail(
    s1: Seq<Cell>,
    s2: Seq<Cell>,
    w: int,
    h: int,
    xs: int,
    ys: int,
    trail0: Seq<Dir>,
    d: Dir,
    nx: int,
    ny: int,
)
    requires
        resolve_ctx(s1, w, h, xs, ys, trail0, d, nx, ny),
        cell_at(s1, w, nx, ny) == Cell::TempWall,
        s2.len() == w * h,
        forall|x: int, y: int|
            in_grid(w, h, x, y) ==> #[trigger] cell_at(s2, w, x, y) == if on_trail(
                xs,
                ys,
                trail0.push(d),
                x,
                y,
            ) {
                Cell::Space
            } else {
                cell_at(s1, w, x, y)
            },
    ensures
        maze_inv(s2, w, h),
        forall|x: int, y: int|
            in_grid(w, h, x, y) && #[trigger] cell_at(s1, w, x, y) == Cell::Wall ==> cell_at(
                s2,
                w,
                x,
                y,
            ) == Cell::Wall,
{
    let trail = trail0.push(d);
    lemma_dest_lattice(s1, w, h, xs, ys, trail0, d, nx, ny);
    assert forall|x: int, y: int|
        in_grid(w, h, x, y) && #[trigger] cell_at(s1, w, x, y) == Cell::Wall implies !on_trail(
        xs,
        ys,
        trail,
        x,
        y,
    ) by {
        if on_trail(xs, ys, trail, x, y) {
            lemma_trail_prestate(s1, w, h, xs, ys, trail0, d, nx, ny, x, y);
            assert(false);
        }
    }
    assert forall|x: int, y: int|
        in_grid(w, h, x, y) && on_border(w, h, x, y) implies #[trigger] cell_at(s2, w, x, y)
        == Cell::Wall by {
        assert(cell_at(s1, w, x, y) == Cell::Wall);
    }
    assert forall|x: int, y: int| in_grid(w, h, x, y) implies #[trigger] cell_at(s2, w, x, y)
        != Cell::TempWall by {
        if !on_trail(xs, ys, trail, x, y) && cell_at(s1, w, x, y) == Cell::TempWall {
            lemma_temp_on_trail(s1, w, h, xs, ys, trail0, d, nx, ny, x, y);
            assert(false);
        }
    }
    assert forall|x: int, y: int|
        in_grid(w, h, x, y) && x % 2 == 1 && y % 2 == 1 implies #[trigger] cell_at(s2, w, x, y)
        == Cell::Space by {
        if !on_trail(xs, ys, trail, x, y) {
            assert(cell_at(s1, w, x, y) == Cell::Space);
        }
    }
    assert forall|x: int, y: int|
        in_grid(w, h, x, y) && x % 2 == 1 && y % 2 == 0 && #[trigger] cell_at(s2, w, x, y)
            == Cell::Wall implies s2[sidx(w, x - 1, y)] == Cell::Wall && s2[sidx(w, x + 1, y)]
        == Cell::Wall by {
        assert(cell_at(s1, w, x, y) == Cell::Wall);
        assert(in_grid(w, h, x - 1, y) && in_grid(w, h, x + 1, y));
        assert(cell_at(s1, w, x - 1, y) == Cell::Wall && cell_at(s1, w, x + 1, y) == Cell::Wall);
        assert(cell_at(s2, w, x - 1, y) == Cell::Wall);
        assert(cell_at(s2, w, x + 1, y) == Cell::Wall);
    }
    assert forall|x: int, y: int|
        in_grid(w, h, x, y) && x % 2 == 0 && y % 2 == 1 && #[trigger] cell_at(s2, w, x, y)
            == Cell::Wall implies s2[sidx(w, x, y - 1)] == Cell::Wall && s2[sidx(w, x, y + 1)]
        == Cell::Wall by {
        assert(cell_at(s1, w, x, y) == Cell::Wall);
        assert(in_grid(w, h, x, y - 1) && in_grid(w, h, x, y + 1));
        assert(cell_at(s1, w, x, y - 1) == Cell::Wall && cell_at(s1, w, x, y + 1) == Cell::Wall);
        assert(cell_at(s2, w, x, y - 1) == Cell::Wall);
        assert(cell_at(s2, w, x, y + 1) == Cell::Wall);
    }
    assert forall|x: int, y: int|
        on_lattice(w, h, x, y) && #[trigger] cell_at(s2, w, x, y) == Cell::Wall implies s2[sidx(
        w,
        x - 1,
        y,
    )] == Cell::Wall || s2[sidx(w, x + 1, y)] == Cell::Wall || s2[sidx(w, x, y - 1)]
        == Cell::Wall || s2[sidx(w, x, y + 1)] == Cell::Wall by {
        assert(in_grid(w, h, x, y));
        assert(in_grid(w, h, x - 1, y) && in_grid(w, h, x + 1, y) && in_grid(w, h, x, y - 1)
            && in_grid(w, h, x, y + 1));
        assert(cell_at(s1, w, x, y) == Cell::Wall);
        if s1[sidx(w, x - 1, y)] == Cell::Wall {
            assert(cell_at(s1, w, x - 1, y) == Cell::Wall);
            assert(cell_at(s2, w, x - 1, y) == Cell::Wall);
        }
        if s1[sidx(w, x + 1, y)] == Cell::Wall {
            assert(cell_at(s1, w, x + 1, y) == Cell::Wall);
            assert(cell_at(s2, w, x + 1, y) == Cell::Wall);
        }
        if s1[sidx(w, x, y - 1)] == Cell::Wall {
            assert(cell_at(s1, w, x, y - 1) == Cell::Wall);
            assert(cell_at(s2, w, x, y - 1) == Cell::Wall);
        }
        if s1[sidx(w, x, y + 1)] == Cell::Wall {
            assert(cell_at(s1, w, x, y + 1) == Cell::Wall);
            assert(cell_at(s2, w, x, y + 1) == Cell::Wall);
        }
    }
    assert forall|a: int, b: int|
        in_grid(w, h, a, b) && #[trigger] cell_at(s1, w, a, b) == Cell::Wall implies cell_at(
        s2,
        w,
        a,
        b,
    ) == Cell::Wall by {}
    assert forall|x: int, y: int|
        in_grid(w, h, x, y) && #[trigger] cell_at(s2, w, x, y) == Cell::Wall implies exists|k: nat|
        wall_linked(s2, w, h, x, y, k) by {
        assert(cell_at(s1, w, x, y) == Cell::Wall);
        let k0 = choose|k: nat| wall_linked(s1, w, h, x, y, k);
        lemma_linked_monotone(s1, s2, w, h, x, y, k0);
        assert(wall_linked(s2, w, h, x, y, k0));
    }
}

/// Marking an open destination cell extends the walk invariant to the longer
/// trail and changes no wall either way.
#[verifier::spinoff_prover]
#[verifier::rlimit(60)]
proof fn lemma_extend_trail(
    s1: Seq<Cell>,
    s2: Seq<Cell>,
    w: int,
    h: int,
    xs: int,
    ys: int,
    trail0: Seq<Dir>,
    d: Dir,
    nx: int,
    ny: int,
)
    requires
        resolve_ctx(s1, w, h, xs, ys, trail0, d, nx, ny),
        cell_at(s1, w, nx, ny) == Cell::Space,
        s2.len() == w * h,
        forall|x: int, y: int|
            in_grid(w, h, x, y) ==> #[trigger] cell_at(s2, w, x, y) == if x == nx && y == ny {
                Cell::TempWall
            } else {
                cell_at(s1, w, x, y)
            },
    ensures
        walk_inv(s2, w, h, xs, ys, trail0.push(d)),
        forall|x: int, y: int|
            in_grid(w, h, x, y) ==> (#[trigger] cell_at(s2, w, x, y) == Cell::Wall <==> cell_at(
                s1,
                w,
                x,
                y,
            ) == Cell::Wall),
{
    let trail = trail0.push(d);
    let n = trail0.len() as int;
    lemma_geo(s1, w, h, xs, ys, trail0, d, nx, ny);
    lemma_dest_lattice(s1, w, h, xs, ys, trail0, d, nx, ny);
    lemma_last_doorway(s1, w, h, xs, ys, trail0, d, nx, ny);
    lemma_push_all(xs, ys, trail0, d);
    assert(trail.len() as int == n + 1);
    assert forall|i: int|
        #![trigger pos_x(xs, trail, i)]
        #![trigger pos_y(ys, trail, i)]
        0 <= i <= n + 1 implies on_lattice(w, h, pos_x(xs, trail, i), pos_y(ys, trail, i)) && s2[
        sidx(w, pos_x(xs, trail, i), pos_y(ys, trail, i))
    ] == Cell::TempWall by {
        assert(in_grid(w, h, pos_x(xs, trail, i), pos_y(ys, trail, i)));
        if i <= n {
            assert(s1[sidx(w, pos_x(xs, trail, i), pos_y(ys, trail, i))] == Cell::TempWall);
        }
        assert(cell_at(s2, w, pos_x(xs, trail, i), pos_y(ys, trail, i)) == Cell::TempWall);
    }
    assert forall|i: int|
        #![trigger mid_x(xs, trail, i)]
        #![trigger mid_y(ys, trail, i)]
        1 <= i <= n + 1 implies s2[sidx(w, mid_x(xs, trail, i), mid_y(ys, trail, i))]
        == Cell::Space by {
        lemma_stride_shape(xs, ys, trail, i);
        assert(pos_x(xs, trail, i - 1) % 2 == 0 && pos_y(ys, trail, i - 1) % 2 == 0);
        assert(on_lattice(w, h, pos_x(xs, trail, i - 1), pos_y(ys, trail, i - 1)));
        let mx = mid_x(xs, trail, i);
        let my = mid_y(ys, trail, i);
        assert(in_grid(w, h, mx, my));
        assert(!(mx % 2 == 0 && my % 2 == 0));
        assert(!(mx == nx && my == ny));
        if i <= n {
            assert(mid_x(xs, trail0, i) == mx && mid_y(ys, trail0, i) == my);
            assert(s1[sidx(w, mx, my)] == Cell::Space);
        } else {
            assert(s1[sidx(w, mx, my)] == Cell::Space);
        }
        assert(cell_at(s2, w, mx, my) == cell_at(s1, w, mx, my));
    }
    assert forall|x: int, y: int|
        in_grid(w, h, x, y) && #[trigger] cell_at(s2, w, x, y) == Cell::TempWall implies hits_pos(
        xs,
        ys,
        trail,
        n + 1,
        x,
        y,
    ) by {
        if x == nx && y == ny {
            assert(0 <= n + 1 <= n + 1 && pos_x(xs, trail, n + 1) == x && pos_y(ys, trail, n + 1)
                == y);
        } else {
            assert(cell_at(s1, w, x, y) == Cell::TempWall);
            lemma_temp_on_trail(s1, w, h, xs, ys, trail0, d, nx, ny, x, y);
        }
    }
    assert forall|x: int, y: int|
        in_grid(w, h, x, y) && on_border(w, h, x, y) implies #[trigger] cell_at(s2, w, x, y)
        == Cell::Wall by {
        assert(cell_at(s1, w, x, y) == Cell::Wall);
    }
    assert forall|x: int, y: int|
        in_grid(w, h, x, y) && x % 2 == 1 && y % 2 == 1 implies #[trigger] cell_at(s2, w, x, y)
        == Cell::Space by {
        assert(cell_at(s1, w, x, y) == Cell::Space);
    }
    assert forall|x: int, y: int|
        in_grid(w, h, x, y) && x % 2 == 1 && y % 2 == 0 && #[trigger] cell_at(s2, w, x, y)
            == Cell::Wall implies s2[sidx(w, x - 1, y)] == Cell::Wall && s2[sidx(w, x + 1, y)]
        == Cell::Wall by {
        assert(cell_at(s1, w, x, y) == Cell::Wall);
        assert(in_grid(w, h, x - 1, y) && in_grid(w, h, x + 1, y));
        assert(cell_at(s1, w, x - 1, y) == Cell::Wall && cell_at(s1, w, x + 1, y) == Cell::Wall);
        assert(cell_at(s2, w, x - 1, y) == Cell::Wall);
        assert(cell_at(s2, w, x + 1, y) == Cell::Wall);
    }
    assert forall|x: int, y: int|
        in_grid(w, h, x, y) && x % 2 == 0 && y % 2 == 1 && #[trigger] cell_at(s2, w, x, y)
            == Cell::Wall implies s2[sidx(w, x, y - 1)] == Cell::Wall && s2[sidx(w, x, y + 1)]
        == Cell::Wall by {
        assert(cell_at(s1, w, x, y) == Cell::Wall);
        assert(in_grid(w, h, x, y - 1) && in_grid(w, h, x, y + 1));
        assert(cell_at(s1, w, x, y - 1) == Cell::Wall && cell_at(s1, w, x, y + 1) == Cell::Wall);
        assert(cell_at(s2, w, x, y - 1) == Cell::Wall);
        assert(cell_at(s2, w, x, y + 1) == Cell::Wall);
    }
    assert forall|x: int, y: int|
        on_lattice(w, h, x, y) && #[trigger] cell_at(s2, w, x, y) == Cell::Wall implies s2[sidx(
        w,
        x - 1,
        y,
    )] == Cell::Wall || s2[sidx(w, x + 1, y)] == Cell::Wall || s2[sidx(w, x, y - 1)]
        == Cell::Wall || s2[sidx(w, x, y + 1)] == Cell::Wall by {
        assert(in_grid(w, h, x, y));
        assert(in_grid(w, h, x - 1, y) && in_grid(w, h, x + 1, y) && in_grid(w, h, x, y - 1)
            && in_grid(w, h, x, y + 1));
        assert(cell_at(s1, w, x, y) == Cell::Wall);
        if s1[sidx(w, x - 1, y)] == Cell::Wall {
            assert(cell_at(s1, w, x - 1, y) == Cell::Wall);
            assert(cell_at(s2, w, x - 1, y) == Cell::Wall);
        }
        if s1[sidx(w, x + 1, y)] == Cell::Wall {
            assert(cell_at(s1, w, x + 1, y) == Cell::Wall);
            assert(cell_at(s2, w, x + 1, y) == Cell::Wall);
        }
        if s1[sidx(w, x, y - 1)] == Cell::Wall {
            assert(cell_at(s1, w, x, y - 1) == Cell::Wall);
            assert(cell_at(s2, w, x, y - 1) == Cell::Wall);
        }
        if s1[sidx(w, x, y + 1)] == Cell::Wall {
            assert(cell_at(s1, w, x, y + 1) == Cell::Wall);
            assert(cell_at(s2, w, x, y + 1) == Cell::Wall);
        }
    }
    assert forall|a: int, b: int|
        in_grid(w, h, a, b) && #[trigger] cell_at(s1, w, a, b) == Cell::Wall implies cell_at(
        s2,
        w,
        a,
        b,
    ) == Cell::Wall by {}
    assert forall|x: int, y: int|
        in_grid(w, h, x, y) && #[trigger] cell_at(s2, w, x, y) == Cell::Wall implies exists|k: nat|
        wall_linked(s2, w, h, x, y, k) by {
        assert(cell_at(s1, w, x, y) == Cell::Wall);
        let k0 = choose|k: nat| wall_linked(s1, w, h, x, y, k);
        lemma_linked_monotone(s1, s2, w, h, x, y, k0);
        assert(wall_linked(s2, w, h, x, y, k0));
    }
}

/// A grid still in its starting state: the border ring walled, everything
/// else open.
pub open spec fn pristine(s: Seq<Cell>, w: int, h: int) -> bool {
    forall|x: int, y: int|
        in_grid(w, h, x, y) ==> #[trigger] cell_at(s, w, x, y) == (if on_border(w, h, x, y) {
            Cell::Wall
        } else {
            Cell::Space
        })
}

/// The finished minimal 5-by-5 grid after a carve whose single stride went
/// in direction `e`: the border ring, the centre seed and the one doorway
/// the stride crossed are walls; the other interior cells stay open.
pub open spec fn minimal_maze(s: Seq<Cell>, e: Dir) -> bool {
    forall|x: int, y: int|
        in_grid(5, 5, x, y) ==> #[trigger] cell_at(s, 5, x, y) == (if on_border(5, 5, x, y) || (x
            == 2 && y == 2) || (x == 2 + dir_dx(e) && y == 2 + dir_dy(e)) {
            Cell::Wall
        } else {
            Cell::Space
        })
}

/// On the minimal 5-by-5 grid, a produced maze has the exact one-stride
/// shape for some drawn direction.
pub open spec fn minimal_result(m: Option<Maze>) -> bool {
    match m {
        Some(maze) => exists|e: Dir| minimal_maze(maze.grid(), e),
        None => true,
    }
}

/// Resolves one seed: repeats carve attempts until the seed has been walled
/// into the maze, reverting each failed attempt, or gives up when the step
/// budget runs out. On the minimal 5-by-5 grid one draw always suffices,
/// because every stride from the sole lattice point hits the border wall.
#[verifier::loop_isolation(false)]
#[verifier::rlimit(60)]
fn carve_from<R: DirectionSource>(
    cells: &mut Vec<Cell>,
    w: usize,
    h: usize,
    xs: usize,
    ys: usize,
    rng: &mut R,
    steps: &mut u64,
) -> (established: bool)
    requires
        valid_dims(w as int, h as int),
        on_lattice(w as int, h as int, xs as int, ys as int),
        maze_inv(old(cells)@, w as int, h as int),
    ensures
        established ==> maze_inv(final(cells)@, w as int, h as int) && cell_at(
            final(cells)@,
            w as int,
            xs as int,
            ys as int,
        ) == Cell::Wall && (forall|x: int, y: int|
            in_grid(w as int, h as int, x, y) && #[trigger] cell_at(old(cells)@, w as int, x, y)
                == Cell::Wall ==> cell_at(final(cells)@, w as int, x, y) == Cell::Wall),
        !established ==> *final(steps) == 0,
        w == 5 && h == 5 && *old(steps) >= 1 ==> established,
        w == 5 && h == 5 && *old(steps) >= 1 && pristine(old(cells)@, 5, 5) ==> exists|e: Dir|
            minimal_maze(final(cells)@, e),
{
    loop
        invariant
            maze_inv(cells@, w as int, h as int),
            forall|x: int, y: int|
                in_grid(w as int, h as int, x, y) && #[trigger] cell_at(
                    old(cells)@,
                    w as int,
                    x,
                    y,
                ) == Cell::Wall ==> cell_at(cells@, w as int, x, y) == Cell::Wall,
            w == 5 && h == 5 && *old(steps) >= 1 ==> *steps >= 1,
            w == 5 && h == 5 ==> cells@ == old(cells)@,
        decreases *steps,
    {
        if get_cell(cells, w, h, xs, ys) == Cell::Wall {
            return true;
        }
        if *steps == 0 {
            return false;
        }
        let ghost s_seed = cells@;
        let ghost steps_entry: u64 = *steps;
        set_cell(cells, w, h, xs, ys, Cell::TempWall);
        proof {
            lemma_seed_trail(s_seed, cells@, w as int, h as int, xs as int, ys as int);
        }
        let mut trail: Vec<Dir> = Vec::new();
        let mut x = xs;
        let mut y = ys;
        #[verifier::loop_isolation(true)]
        loop
            invariant_except_break
                valid_dims(w as int, h as int),
                on_lattice(w as int, h as int, xs as int, ys as int),
                walk_inv(cells@, w as int, h as int, xs as int, ys as int, trail@),
                x as int == pos_x(xs as int, trail@, trail@.len() as int),
                y as int == pos_y(ys as int, trail@, trail@.len() as int),
                forall|x2: int, y2: int|
                    in_grid(w as int, h as int, x2, y2) && #[trigger] cell_at(
                        old(cells)@,
                        w as int,
                        x2,
                        y2,
                    ) == Cell::Wall ==> cell_at(cells@, w as int, x2, y2) == Cell::Wall,
                *steps <= steps_entry,
                w == 5 && h == 5 ==> trail@.len() == 0 && *steps >= 1,
                w == 5 && h == 5 ==> (forall|x2: int, y2: int|
                    in_grid(5, 5, x2, y2) ==> #[trigger] cell_at(cells@, 5, x2, y2) == (if x2 == xs
                        && y2 == ys {
                        Cell::TempWall
                    } else {
                        cell_at(old(cells)@, 5, x2, y2)
                    })),
            ensures
                !(w == 5 && h == 5),
                maze_inv(cells@, w as int, h as int),
                forall|x2: int, y2: int|
                    in_grid(w as int, h as int, x2, y2) && #[trigger] cell_at(
                        old(cells)@,
                        w as int,
                        x2,
                        y2,
                    ) == Cell::Wall ==> cell_at(cells@, w as int, x2, y2) == Cell::Wall,
                *steps < steps_entry,
            decreases *steps,
        {
            if *steps == 0 {
                return false;
            }
            *steps = *steps - 1;
            let d = rng.next_dir();
            let ghost n = trail@.len() as int;
            proof {
                assert(on_lattice(
                    w as int,
                    h as int,
                    pos_x(xs as int, trail@, n),
                    pos_y(ys as int, trail@, n),
                ));
                lemma_dir_unit(d);
            }
            let nx: usize;
            let ny: usize;
            match d {
                Dir::Up => {
                    nx = x;
                    ny = y - 2;
                },
                Dir::Right => {
                    nx = x + 2;
                    ny = y;
                },
                Dir::Down => {
                    nx = x;
                    ny = y + 2;
                },
                Dir::Left => {
                    nx = x - 2;
                    ny = y;
                },
            }
            proof {
                assert(nx as int == pos_x(xs as int, trail@, n) + 2 * dir_dx(d));
                assert(ny as int == pos_y(ys as int, trail@, n) + 2 * dir_dy(d));
                assert(in_grid(w as int, h as int, nx as int, ny as int));
            }
            let c = get_cell(cells, w, h, nx, ny);
            let ghost s_pre = cells@;
            let ghost trail0: Seq<Dir> = trail@;
            proof {
                assert(resolve_ctx(
                    s_pre,
                    w as int,
                    h as int,
                    xs as int,
                    ys as int,
                    trail0,
                    d,
                    nx as int,
                    ny as int,
                ));
            }
            trail.push(d);
            if c == Cell::Wall {
                proof {
                    lemma_geo(
                        s_pre,
                        w as int,
                        h as int,
                        xs as int,
                        ys as int,
                        trail0,
                        d,
                        nx as int,
                        ny as int,
                    );
                }
                paint_trail(cells, w, h, xs, ys, &trail, Cell::Wall);
                proof {
                    lemma_confirm_trail(
                        s_pre,
                        cells@,
                        w as int,
                        h as int,
                        xs as int,
                        ys as int,
                        trail0,
                        d,
                        nx as int,
                        ny as int,
                    );
                }
                proof {
                    if w == 5 && h == 5 && pristine(old(cells)@, 5, 5) {
                        assert(xs == 2 && ys == 2);
                        assert(trail0.len() == 0);
                        assert(trail@[0] == d);
                        lemma_dir_unit(d);
                        assert forall|x2: int, y2: int| in_grid(5, 5, x2, y2) implies #[trigger] cell_at(
                            cells@,
                            5,
                            x2,
                            y2,
                        ) == (if on_border(5, 5, x2, y2) || (x2 == 2 && y2 == 2) || (x2 == 2
                            + dir_dx(d) && y2 == 2 + dir_dy(d)) {
                            Cell::Wall
                        } else {
                            Cell::Space
                        }) by {
                            assert(pos_x(2, trail@, 0) == 2 && pos_y(2, trail@, 0) == 2);
                            assert(pos_x(2, trail@, 1) == 2 + 2 * dir_dx(d));
                            assert(pos_y(2, trail@, 1) == 2 + 2 * dir_dy(d));
                            assert(mid_x(2, trail@, 1) == 2 + dir_dx(d));
                            assert(mid_y(2, trail@, 1) == 2 + dir_dy(d));
                            if on_trail(2, 2, trail@, x2, y2) {
                                if hits_pos(2, 2, trail@, 1, x2, y2) {
                                    let i = choose|i: int|
                                        0 <= i <= 1 && #[trigger] pos_x(2, trail@, i) == x2
                                            && pos_y(2, trail@, i) == y2;
                                    assert(i == 0 || i == 1);
                                } else {
                                    assert(hits_mid(2, 2, trail@, 1, x2, y2));
                                    let i = choose|i: int|
                                        1 <= i <= 1 && #[trigger] mid_x(2, trail@, i) == x2
                                            && mid_y(2, trail@, i) == y2;
                                    assert(i == 1);
                                }
                            } else {
                                if x2 == 2 && y2 == 2 {
                                    assert(0 <= 0 <= 1 && pos_x(2, trail@, 0) == x2 && pos_y(
                                        2,
                                        trail@,
                                        0,
                                    ) == y2);
                                    assert(hits_pos(2, 2, trail@, 1, x2, y2));
                                    assert(false);
                                }
                                if x2 == 2 + dir_dx(d) && y2 == 2 + dir_dy(d) {
                                    assert(1 <= 1 <= 1 && mid_x(2, trail@, 1) == x2 && mid_y(
                                        2,
                                        trail@,
                                        1,
                                    ) == y2);
                                    assert(hits_mid(2, 2, trail@, 1, x2, y2));
                                    assert(false);
                                }
                                assert(cell_at(cells@, 5, x2, y2) == cell_at(s_pre, 5, x2, y2));
                                assert(cell_at(s_pre, 5, x2, y2) == cell_at(old(cells)@, 5, x2, y2));
                            }
                        }
                        assert(minimal_maze(cells@, d));
                    }
                }
                return true;
            } else if c == Cell::TempWall {
                proof {
                    if w == 5 && h == 5 {
                        // the sole lattice point is (2, 2): every stride from
                        // it lands on the border, which is permanent wall
                        assert(on_lattice(w as int, h as int, x as int, y as int));
                        assert(x == 2 && y == 2);
                        assert(on_border(w as int, h as int, nx as int, ny as int));
                        assert(cell_at(s_pre, w as int, nx as int, ny as int) == Cell::Wall);
                        assert(false);
                    }
                    lemma_geo(
                        s_pre,
                        w as int,
                        h as int,
                        xs as int,
                        ys as int,
                        trail0,
                        d,
                        nx as int,
                        ny as int,
                    );
                }
                paint_trail(cells, w, h, xs, ys, &trail, Cell::Space);
                proof {
                    lemma_revert_trail(
                        s_pre,
                        cells@,
                        w as int,
                        h as int,
                        xs as int,
                        ys as int,
                        trail0,
                        d,
                        nx as int,
                        ny as int,
                    );
                }
                break;
            } else {
                proof {
                    if w == 5 && h == 5 {
                        // as in the collision branch: unreachable on the
                        // minimal grid, where every stride hits the border
                        assert(on_lattice(w as int, h as int, x as int, y as int));
                        assert(x == 2 && y == 2);
                        assert(on_border(w as int, h as int, nx as int, ny as int));
                        assert(cell_at(s_pre, w as int, nx as int, ny as int) == Cell::Wall);
                        assert(false);
                    }
                }
                set_cell(cells, w, h, nx, ny, Cell::TempWall);
                proof {
                    assert(c == Cell::Space);
                    lemma_push_all(xs as int, ys as int, trail0, d);
                    lemma_extend_trail(
                        s_pre,
                        cells@,
                        w as int,
                        h as int,
                        xs as int,
                        ys as int,
                        trail0,
                        d,
                        nx as int,
                        ny as int,
                    );
                }
                x = nx;
                y = ny;
            }
        }
    }
}

/// A finished maze: owned cell buffer, fixed dimensions, read-only after
/// construction.
pub struct Maze {
    width: usize,
    height: usize,
    cells: Vec<Cell>,
}

impl Maze {
    /// The grid width, as a mathematical integer.
    pub closed spec fn spec_width(&self) -> int {
        self.width as int
    }

    /// The grid height, as a mathematical integer.
    pub closed spec fn spec_height(&self) -> int {
        self.height as int
    }

    /// The cell buffer, as a mathematical sequence.
    pub closed spec fn grid(&self) -> Seq<Cell> {
        self.cells@
    }

    /// A well-formed finished maze: admissible dimensions; a buffer of
    /// exactly `width * height` cells; every border cell a wall; no residual
    /// transient marker; cells odd in both axes open; doorway walls always
    /// flanked by their two lattice walls; no lattice wall standing alone;
    /// every wall reaching the border ring through walls (so the open region
    /// encloses no wall island); and every interior lattice point resolved
    /// to a wall.
    pub open spec fn wf(&self) -> bool {
        &&& valid_dims(self.spec_width(), self.spec_height())
        &&& maze_inv(self.grid(), self.spec_width(), self.spec_height())
        &&& lattice_walled(self.grid(), self.spec_width(), self.spec_height())
    }

    /// Generates a maze of the given dimensions, drawing directions from
    /// `rng` and consuming one unit of `steps` per draw. Returns `None`
    /// exactly when the step budget runs out before the carve completes: a
    /// zero budget always fails, and on the minimal 5-by-5 grid any positive
    /// budget always succeeds, whatever the source draws. The budget is an
    /// operational safety valve against degenerate direction sources, not
    /// part of the carving algorithm itself.
    #[verifier::loop_isolation(false)]
    #[verifier::rlimit(60)]
    pub fn generate<R: DirectionSource>(
        width: usize,
        height: usize,
        rng: &mut R,
        steps: &mut u64,
    ) -> (m: Option<Maze>)
        requires
            valid_dims(width as int, height as int),
        ensures
            m matches Some(maze) ==> maze.wf() && maze.spec_width() == width as int
                && maze.spec_height() == height as int,
            m is None ==> *final(steps) == 0,
            *old(steps) == 0 ==> m is None,
            width == 5 && height == 5 && *old(steps) >= 1 ==> m is Some,
            width == 5 && height == 5 && *old(steps) >= 1 ==> minimal_result(m),
    {
        if *steps == 0 {
            // the first seed is always open, so at least one draw is needed
            return None;
        }
        let w = width;
        let h = height;
        let mut cells = init_grid(w, h);
        proof {
            assert forall|x: int, y: int|
                in_grid(w as int, h as int, x, y) && x % 2 == 1 && y % 2 == 0 && #[trigger] cell_at(
                    cells@,
                    w as int,
                    x,
                    y,
                ) == Cell::Wall implies cells@[sidx(w as int, x - 1, y)] == Cell::Wall && cells@[
                sidx(w as int, x + 1, y)
            ] == Cell::Wall by {
                assert(on_border(w as int, h as int, x, y));
                assert(y == 0 || y == h - 1);
                assert(in_grid(w as int, h as int, x - 1, y) && in_grid(w as int, h as int, x + 1, y));
                assert(cell_at(cells@, w as int, x - 1, y) == Cell::Wall);
                assert(cell_at(cells@, w as int, x + 1, y) == Cell::Wall);
            }
            assert forall|x: int, y: int|
                in_grid(w as int, h as int, x, y) && x % 2 == 0 && y % 2 == 1 && #[trigger] cell_at(
                    cells@,
                    w as int,
                    x,
                    y,
                ) == Cell::Wall implies cells@[sidx(w as int, x, y - 1)] == Cell::Wall && cells@[
                sidx(w as int, x, y + 1)
            ] == Cell::Wall by {
                assert(on_border(w as int, h as int, x, y));
                assert(x == 0 || x == w - 1);
                assert(in_grid(w as int, h as int, x, y - 1) && in_grid(w as int, h as int, x, y + 1));
                assert(cell_at(cells@, w as int, x, y - 1) == Cell::Wall);
                assert(cell_at(cells@, w as int, x, y + 1) == Cell::Wall);
            }
            assert forall|x: int, y: int|
                on_lattice(w as int, h as int, x, y) && #[trigger] cell_at(
                    cells@,
                    w as int,
                    x,
                    y,
                ) == Cell::Wall implies cells@[sidx(w as int, x - 1, y)] == Cell::Wall || cells@[
                sidx(w as int, x + 1, y)
            ] == Cell::Wall || cells@[sidx(w as int, x, y - 1)] == Cell::Wall || cells@[
                sidx(w as int, x, y + 1)
            ] == Cell::Wall by {
                assert(in_grid(w as int, h as int, x, y));
                assert(!on_border(w as int, h as int, x, y));
                assert(cell_at(cells@, w as int, x, y) == Cell::Space);
                assert(false);
            }
            assert forall|x: int, y: int|
                in_grid(w as int, h as int, x, y) && #[trigger] cell_at(cells@, w as int, x, y)
                    == Cell::Wall implies exists|k: nat|
                wall_linked(cells@, w as int, h as int, x, y, k) by {
                assert(on_border(w as int, h as int, x, y));
                assert(wall_linked(cells@, w as int, h as int, x, y, 0));
            }
            assert(maze_inv(cells@, w as int, h as int));
            if width == 5 && height == 5 {
                assert(pristine(cells@, 5, 5));
            }
        }
        let mut sy: usize = 2;
        while sy <= h - 3
            invariant
                maze_inv(cells@, w as int, h as int),
                2 <= sy,
                sy % 2 == 0,
                sy <= h - 1,
                width == 5 && height == 5 && *old(steps) >= 1 ==> (sy == 2 ==> *steps >= 1),
                width == 5 && height == 5 ==> (sy == 2 ==> pristine(cells@, 5, 5)),
                width == 5 && height == 5 && *old(steps) >= 1 ==> (sy >= 4 ==> (exists|e: Dir|
                    minimal_maze(cells@, e))),
                forall|x: int, y: int|
                    on_lattice(w as int, h as int, x, y) && y < sy ==> #[trigger] cell_at(
                        cells@,
                        w as int,
                        x,
                        y,
                    ) == Cell::Wall,
            decreases h - sy,
        {
            let mut sx: usize = 2;
            while sx <= w - 3
                invariant
                    maze_inv(cells@, w as int, h as int),
                    2 <= sx,
                    sx % 2 == 0,
                    sx <= w - 1,
                    sy <= h - 3,
                    width == 5 && height == 5 && *old(steps) >= 1 ==> (sx == 2 ==> *steps
                        >= 1),
                    width == 5 && height == 5 ==> (sx == 2 ==> pristine(cells@, 5, 5)),
                    width == 5 && height == 5 && *old(steps) >= 1 ==> (sx >= 4 ==> (exists|e: Dir|
                        minimal_maze(cells@, e))),
                    forall|x: int, y: int|
                        on_lattice(w as int, h as int, x, y) && y < sy ==> #[trigger] cell_at(
                            cells@,
                            w as int,
                            x,
                            y,
                        ) == Cell::Wall,
                    forall|x: int, y: int|
                        on_lattice(w as int, h as int, x, y) && y == sy && x < sx
                            ==> #[trigger] cell_at(cells@, w as int, x, y) == Cell::Wall,
                decreases w - sx,
            {
                let ghost before = cells@;
                let established = carve_from(&mut cells, w, h, sx, sy, rng, steps);
                if !established {
                    return None;
                }
                proof {
                    assert forall|x: int, y: int|
                        on_lattice(w as int, h as int, x, y) && (y < sy || (y == sy && x < sx
                            + 2)) implies #[trigger] cell_at(cells@, w as int, x, y)
                        == Cell::Wall by {
                        assert(in_grid(w as int, h as int, x, y));
                        if y < sy || (y == sy && x < sx) {
                            assert(cell_at(before, w as int, x, y) == Cell::Wall);
                        } else {
                            assert(x == sx && y == sy);
                        }
                    }
                }
                sx = sx + 2;
            }
            sy = sy + 2;
        }
        proof {
            assert forall|x: int, y: int| on_lattice(w as int, h as int, x, y) implies #[trigger] cell_at(
                cells@,
                w as int,
                x,
                y,
            ) == Cell::Wall by {
                assert(y < sy);
            }
        }
        let ghost chosen = choose|e: Dir| minimal_maze(cells@, e);
        let built = Maze { width: w, height: h, cells };
        proof {
            if width == 5 && height == 5 && *old(steps) >= 1 {
                assert(sy == 4);
                assert(minimal_maze(built.grid(), chosen));
                let ghost om: Option<Maze> = Some(built);
                assert(om->Some_0 == built);
                assert(minimal_maze(om->Some_0.grid(), chosen));
                assert(minimal_result(om));
            }
        }
        Some(built)
    }

    /// Generates a maze in the reference configuration, 109 by 69, with a
    /// generous default step budget. `None` means the direction source was
    /// so degenerate that the budget ran out.
    pub fn new<R: DirectionSource>(rng: &mut R) -> (m: Option<Maze>)
        ensures
            m matches Some(maze) ==> maze.wf() && maze.spec_width() == GRID_WIDTH as int
                && maze.spec_height() == GRID_HEIGHT as int,
    {
        let mut steps: u64 = DEFAULT_STEP_LIMIT;
        Maze::generate(GRID_WIDTH, GRID_HEIGHT, rng, &mut steps)
    }

    /// The grid width.
    pub fn width(&self) -> (w: usize)
        ensures
            w as int == self.spec_width(),
    {
        self.width
    }

    /// The grid height.
    pub fn height(&self) -> (h: usize)
        ensures
            h as int == self.spec_height(),
    {
        self.height
    }

    /// The cell buffer in row-major order, one byte per cell, encoded as
    /// `Space` 0, `Wall` 1 (a finished maze holds no `TempWall`, which would
    /// encode as 2).
    pub fn cells(&self) -> (r: Vec<u8>)
        ensures
            r@.len() == self.grid().len(),
            forall|i: int| 0 <= i < r@.len() ==> r@[i] == cell_byte(self.grid()[i]),
    {
        let mut r: Vec<u8> = Vec::new();
        let mut i: usize = 0;
        let n = self.cells.len();
        while i < n
            invariant
                i <= n,
                n == self.cells@.len(),
                r@.len() == i,
                forall|j: int| 0 <= j < i ==> r@[j] == cell_byte(self.cells@[j]),
            decreases n - i,
        {
            r.push(cell_to_byte(self.cells[i]));
            i = i + 1;
        }
        r
    }
}

} // verus!
