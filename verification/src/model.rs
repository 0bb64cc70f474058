//! The mathematical model of the maze grid.
//!
//! The grid is a row-major sequence of tiles of length `width * height`.
//! Cells at odd/odd coordinates are the lattice vertices of the carving
//! scheme; cells with exactly one odd coordinate are the connectors between
//! two lattice vertices. Everything the public contracts say about a maze is
//! phrased over these spec functions.

use vstd::prelude::*;

use crate::maze::has_reward;
use crate::rewards::Reward;
use crate::tile::Tile;

verus! {

/// Row-major index of the cell at `(x, y)`.
pub open spec fn idx(w: int, x: int, y: int) -> int {
    y * w + x
}

/// `(x, y)` lies inside a `w` by `h` grid.
pub open spec fn in_rect(w: int, h: int, x: int, y: int) -> bool {
    0 <= x < w && 0 <= y < h
}

/// `(x, y)` is a lattice vertex: both coordinates odd.
pub open spec fn is_lat(x: int, y: int) -> bool {
    x % 2 == 1 && y % 2 == 1
}

/// `(x, y)` is a connector cell: exactly one coordinate odd.
pub open spec fn is_conn(x: int, y: int) -> bool {
    (x % 2 == 1 && y % 2 == 0) || (x % 2 == 0 && y % 2 == 1)
}

/// Acceptable grid dimensions for generation: odd in both directions, so
/// that the outer ring consists of even-coordinate cells, and large enough
/// to hold at least a 2 by 2 carving lattice.
pub open spec fn dims_ok(w: int, h: int) -> bool {
    w % 2 == 1 && h % 2 == 1 && w >= 5 && h >= 5
}

/// The cell at `(x, y)` is carved ground.
pub open spec fn ground(g: Seq<Tile>, w: int, x: int, y: int) -> bool {
    g[idx(w, x, y)] is Ground
}

/// The entry cell of every maze.
pub open spec fn entry_x() -> int {
    1
}

/// The entry cell of every maze.
pub open spec fn entry_y() -> int {
    1
}

/// The designated exit: the lattice vertex nearest the far corner.
pub open spec fn exit_x(w: int) -> int {
    w - 2
}

/// The designated exit: the lattice vertex nearest the far corner.
pub open spec fn exit_y(h: int) -> int {
    h - 2
}

/// Row-major indexing is injective on cells of the grid.
pub proof fn lemma_idx_injective(w: int, x1: int, y1: int, x2: int, y2: int)
    requires
        w >= 1,
        0 <= x1 < w,
        0 <= x2 < w,
        0 <= y1,
        0 <= y2,
        idx(w, x1, y1) == idx(w, x2, y2),
    ensures
        x1 == x2 && y1 == y2,
{
    assert(x1 == x2 && y1 == y2) by (nonlinear_arith)
        requires
            w >= 1,
            0 <= x1 < w,
            0 <= x2 < w,
            0 <= y1,
            0 <= y2,
            y1 * w + x1 == y2 * w + x2,
    ;
}

/// Every cell of the grid has its index inside the sequence.
pub proof fn lemma_idx_bounds(w: int, h: int, x: int, y: int)
    requires
        w >= 1,
        h >= 1,
        in_rect(w, h, x, y),
    ensures
        0 <= idx(w, x, y) < w * h,
{
    assert(0 <= y * w + x < w * h) by (nonlinear_arith)
        requires
            w >= 1,
            h >= 1,
            0 <= x < w,
            0 <= y < h,
    ;
}

/// Coordinates of the cell stored at index `i`, inverse of `idx`.
pub proof fn lemma_idx_coords(w: int, h: int, x: int, y: int)
    requires
        w >= 1,
        h >= 1,
        in_rect(w, h, x, y),
    ensures
        idx(w, x, y) % w == x,
        idx(w, x, y) / w == y,
{
    assert((y * w + x) % w == x && (y * w + x) / w == y) by (nonlinear_arith)
        requires
            w >= 1,
            0 <= x < w,
            0 <= y,
    ;
}

/// The two cells touch edge to edge.
pub open spec fn adjacent(ax: int, ay: int, bx: int, by: int) -> bool {
    ||| (ax == bx && (ay == by + 1 || ay + 1 == by))
    ||| (ay == by && (ax == bx + 1 || ax + 1 == bx))
}

/// `p` is a flood-fill path: a non-empty chain of adjacent ground cells
/// inside the grid.
pub open spec fn ground_path(g: Seq<Tile>, w: int, h: int, p: Seq<(int, int)>) -> bool {
    &&& p.len() >= 1
    &&& forall|i: int|
        0 <= i < p.len() ==> in_rect(w, h, (#[trigger] p[i]).0, p[i].1) && ground(
            g,
            w,
            p[i].0,
            p[i].1,
        )
    &&& forall|i: int|
        0 <= i < p.len() - 1 ==> adjacent((#[trigger] p[i]).0, p[i].1, p[i + 1].0, p[i + 1].1)
}

/// A flood-fill from the entry cell reaches `(x, y)` through ground cells.
pub open spec fn reaches(g: Seq<Tile>, w: int, h: int, x: int, y: int) -> bool {
    exists|p: Seq<(int, int)>|
        ground_path(g, w, h, p) && p.first() == (entry_x(), entry_y()) && p.last() == (x, y)
}

/// Ground never reverts to wall between the two grids.
#[verifier::opaque]
pub open spec fn ground_mono(g1: Seq<Tile>, g2: Seq<Tile>, w: int, h: int) -> bool {
    forall|x: int, y: int|
        in_rect(w, h, x, y) && #[trigger] ground(g1, w, x, y) ==> ground(g2, w, x, y)
}

/// The two grids have the same cells carved.
#[verifier::opaque]
pub open spec fn same_ground(g1: Seq<Tile>, g2: Seq<Tile>, w: int, h: int) -> bool {
    forall|x: int, y: int|
        #![trigger ground(g1, w, x, y)]
        #![trigger ground(g2, w, x, y)]
        in_rect(w, h, x, y) ==> (ground(g1, w, x, y) <==> ground(g2, w, x, y))
}

/// A grid carves monotonically into itself.
pub proof fn lemma_mono_refl(g: Seq<Tile>, w: int, h: int)
    ensures
        ground_mono(g, g, w, h),
{
    reveal(ground_mono);
}

/// One carved cell stays carved under monotone carving.
pub proof fn lemma_mono_point(g1: Seq<Tile>, g2: Seq<Tile>, w: int, h: int, x: int, y: int)
    requires
        ground_mono(g1, g2, w, h),
        in_rect(w, h, x, y),
        ground(g1, w, x, y),
    ensures
        ground(g2, w, x, y),
{
    reveal(ground_mono);
}

/// Whatever the entry once reached it still reaches after more carving.
pub proof fn lemma_reaches_mono(g1: Seq<Tile>, g2: Seq<Tile>, w: int, h: int, x: int, y: int)
    requires
        ground_mono(g1, g2, w, h),
        reaches(g1, w, h, x, y),
    ensures
        reaches(g2, w, h, x, y),
{
    reveal(ground_mono);
    let p = choose|p: Seq<(int, int)>|
        ground_path(g1, w, h, p) && p.first() == (entry_x(), entry_y()) && p.last() == (x, y);
    assert forall|i: int| 0 <= i < p.len() implies in_rect(w, h, (#[trigger] p[i]).0, p[i].1)
        && ground(g2, w, p[i].0, p[i].1) by {
        assert(ground(g1, w, p[i].0, p[i].1));
    }
    assert(ground_path(g2, w, h, p));
}

/// A path extends by one adjacent ground cell.
pub proof fn lemma_reaches_step(g: Seq<Tile>, w: int, h: int, x: int, y: int, nx: int, ny: int)
    requires
        reaches(g, w, h, x, y),
        adjacent(x, y, nx, ny),
        in_rect(w, h, nx, ny),
        ground(g, w, nx, ny),
    ensures
        reaches(g, w, h, nx, ny),
{
    let p = choose|p: Seq<(int, int)>|
        ground_path(g, w, h, p) && p.first() == (entry_x(), entry_y()) && p.last() == (x, y);
    let q = p.push((nx, ny));
    assert forall|i: int| 0 <= i < q.len() implies in_rect(w, h, (#[trigger] q[i]).0, q[i].1)
        && ground(g, w, q[i].0, q[i].1) by {
        if i < p.len() {
            assert(q[i] == p[i]);
        }
    }
    assert forall|i: int|
        0 <= i < q.len() - 1 implies adjacent(
        (#[trigger] q[i]).0,
        q[i].1,
        q[i + 1].0,
        q[i + 1].1,
    ) by {
        if i < p.len() - 1 {
            assert(q[i] == p[i] && q[i + 1] == p[i + 1]);
        } else {
            assert(q[i] == p.last() && q[i + 1] == (nx, ny));
        }
    }
    assert(ground_path(g, w, h, q) && q.first() == (entry_x(), entry_y()) && q.last() == (
    nx,
    ny,
    ));
}

/// The entry cell reaches itself once it is carved.
pub proof fn lemma_reaches_entry(g: Seq<Tile>, w: int, h: int)
    requires
        w >= 2,
        h >= 2,
        ground(g, w, entry_x(), entry_y()),
    ensures
        reaches(g, w, h, entry_x(), entry_y()),
{
    let p: Seq<(int, int)> = seq![(entry_x(), entry_y())];
    assert(ground_path(g, w, h, p));
    assert(p.first() == (entry_x(), entry_y()) && p.last() == (entry_x(), entry_y()));
}

/// Number of cells among the first `n` that satisfy `f`.
pub open spec fn count_cells(g: Seq<Tile>, f: spec_fn(int, Tile) -> bool, n: int) -> int
    decreases n,
{
    if n <= 0 {
        0
    } else {
        count_cells(g, f, n - 1) + (if f(n - 1, g[n - 1]) {
            1int
        } else {
            0
        })
    }
}

/// Carved lattice vertices: cells at odd/odd coordinates holding ground.
pub open spec fn lat_ground_pred(w: int) -> spec_fn(int, Tile) -> bool {
    |i: int, t: Tile| is_lat(i % w, i / w) && t is Ground
}

/// Carved connectors: cells at mixed-parity coordinates holding ground.
pub open spec fn conn_ground_pred(w: int) -> spec_fn(int, Tile) -> bool {
    |i: int, t: Tile| is_conn(i % w, i / w) && t is Ground
}

/// Unvisited lattice vertices: cells at odd/odd coordinates still walled.
pub open spec fn lat_wall_pred(w: int) -> spec_fn(int, Tile) -> bool {
    |i: int, t: Tile| is_lat(i % w, i / w) && !(t is Ground)
}

/// How a single-cell update moves a count.
pub proof fn lemma_count_cells_update(
    g: Seq<Tile>,
    f: spec_fn(int, Tile) -> bool,
    n: int,
    j: int,
    t: Tile,
)
    requires
        0 <= j < g.len(),
        0 <= n <= g.len(),
    ensures
        count_cells(g.update(j, t), f, n) == count_cells(g, f, n) + (if j < n && f(j, t) {
            1int
        } else {
            0
        }) - (if j < n && f(j, g[j]) {
            1int
        } else {
            0
        }),
    decreases n,
{
    if n > 0 {
        lemma_count_cells_update(g, f, n - 1, j, t);
    }
}

/// Carving can only grow a count of carved cells.
pub proof fn lemma_count_cells_le(
    g1: Seq<Tile>,
    g2: Seq<Tile>,
    f: spec_fn(int, Tile) -> bool,
    n: int,
)
    requires
        0 <= n <= g1.len(),
        g1.len() == g2.len(),
        forall|i: int| 0 <= i < n && #[trigger] f(i, g1[i]) ==> f(i, g2[i]),
    ensures
        count_cells(g1, f, n) <= count_cells(g2, f, n),
    decreases n,
{
    if n > 0 {
        lemma_count_cells_le(g1, g2, f, n - 1);
    }
}

/// Two grids agreeing under `f` have equal counts.
pub proof fn lemma_count_cells_eq(
    g1: Seq<Tile>,
    g2: Seq<Tile>,
    f: spec_fn(int, Tile) -> bool,
    n: int,
)
    requires
        0 <= n <= g1.len(),
        g1.len() == g2.len(),
        forall|i: int| 0 <= i < n ==> (#[trigger] f(i, g1[i]) <==> f(i, g2[i])),
    ensures
        count_cells(g1, f, n) == count_cells(g2, f, n),
    decreases n,
{
    if n > 0 {
        lemma_count_cells_eq(g1, g2, f, n - 1);
    }
}

/// Ground cells are exactly the carved lattice vertices and the carved
/// connectors, and a carved connector never lies on the outer ring.
#[verifier::opaque]
pub open spec fn carved_ok(g: Seq<Tile>, w: int, h: int) -> bool {
    forall|x: int, y: int|
        in_rect(w, h, x, y) && #[trigger] ground(g, w, x, y) ==> is_lat(x, y) || (is_conn(x, y)
            && 1 <= x <= w - 2 && 1 <= y <= h - 2)
}

/// A carved connector always joins two carved lattice vertices.
#[verifier::opaque]
pub open spec fn edges_sound(g: Seq<Tile>, w: int, h: int) -> bool {
    forall|x: int, y: int|
        #![trigger is_conn(x, y), ground(g, w, x, y)]
        in_rect(w, h, x, y) && is_conn(x, y) && ground(g, w, x, y) ==> if x % 2 == 0 {
            ground(g, w, x - 1, y) && ground(g, w, x + 1, y)
        } else {
            ground(g, w, x, y - 1) && ground(g, w, x, y + 1)
        }
}

/// Every carved cell is reachable from the entry by a flood fill.
#[verifier::opaque]
pub open spec fn all_connected(g: Seq<Tile>, w: int, h: int) -> bool {
    forall|x: int, y: int|
        in_rect(w, h, x, y) && #[trigger] ground(g, w, x, y) ==> reaches(g, w, h, x, y)
}

/// The carved lattice graph has exactly one edge less than it has
/// vertices: together with connectedness, a spanning tree.
pub open spec fn tree_count(g: Seq<Tile>, w: int) -> bool {
    count_cells(g, lat_ground_pred(w), g.len() as int) == count_cells(
        g,
        conn_ground_pred(w),
        g.len() as int,
    ) + 1
}

/// Number of carved connectors touching the lattice vertex `(x, y)`.
pub open spec fn open_sides(g: Seq<Tile>, w: int, x: int, y: int) -> int {
    (if ground(g, w, x, y - 1) {
        1int
    } else {
        0
    }) + (if ground(g, w, x + 1, y) {
        1int
    } else {
        0
    }) + (if ground(g, w, x, y + 1) {
        1int
    } else {
        0
    }) + (if ground(g, w, x - 1, y) {
        1int
    } else {
        0
    })
}

/// Reward cells are dead ends: at most one passage ever touches one, and
/// never the one above it (carving refuses to enter a reward moving
/// south).
#[verifier::opaque]
pub open spec fn rewards_dead_ends(g: Seq<Tile>, w: int, rs: Seq<Reward>) -> bool {
    &&& forall|i: int|
        0 <= i < rs.len() ==> open_sides(
            g,
            w,
            (#[trigger] rs[i]).pos.x as int,
            rs[i].pos.y as int,
        ) <= 1
    &&& forall|i: int|
        0 <= i < rs.len() ==> !ground(
            g,
            w,
            (#[trigger] rs[i]).pos.x as int,
            rs[i].pos.y as int - 1,
        )
}

/// Well-placed rewards: on lattice vertices inside the grid, away from the
/// entry, and pairwise distinct.
#[verifier::opaque]
pub open spec fn rewards_wf(rs: Seq<Reward>, w: int, h: int) -> bool {
    &&& forall|i: int|
        0 <= i < rs.len() ==> is_lat((#[trigger] rs[i]).pos.x as int, rs[i].pos.y as int)
            && in_rect(w, h, rs[i].pos.x as int, rs[i].pos.y as int)
    &&& forall|i: int| 0 <= i < rs.len() ==> !((#[trigger] rs[i]).pos.x == 1 && rs[i].pos.y == 1)
    &&& forall|i: int, j: int|
        0 <= i < j < rs.len() ==> !((#[trigger] rs[i]).pos.x == (#[trigger] rs[j]).pos.x
            && rs[i].pos.y == rs[j].pos.y)
}

/// The four carving moves away from the lattice vertex `(x, y)` have all
/// been offered: each lattice neighbor inside the grid is carved, except
/// that a reward below the vertex may have been left alone (carving never
/// approaches a reward moving south).
pub open spec fn nb_ok(
    g: Seq<Tile>,
    w: int,
    h: int,
    rs: Seq<Reward>,
    x: int,
    y: int,
) -> bool {
    &&& (in_rect(w, h, x, y - 2) ==> ground(g, w, x, y - 2))
    &&& (in_rect(w, h, x + 2, y) ==> ground(g, w, x + 2, y))
    &&& (in_rect(w, h, x - 2, y) ==> ground(g, w, x - 2, y))
    &&& (in_rect(w, h, x, y + 2) ==> ground(g, w, x, y + 2) || has_reward(rs, x, y + 2))
}

/// Every carved lattice vertex is fully explored, except rewards and the
/// exit (where carving halts) and the vertices in `s` (those still on the
/// carving stack).
#[verifier::opaque]
pub open spec fn explored_except(
    g: Seq<Tile>,
    w: int,
    h: int,
    rs: Seq<Reward>,
    s: Set<(int, int)>,
) -> bool {
    forall|x: int, y: int|
        #![trigger is_lat(x, y), ground(g, w, x, y)]
        is_lat(x, y) && in_rect(w, h, x, y) && ground(g, w, x, y) && !has_reward(rs, x, y) && !(x
            == exit_x(w) && y == exit_y(h)) && !s.contains((x, y)) ==> nb_ok(g, w, h, rs, x, y)
}

/// Two grids carved alike carve monotonically into each other.
pub proof fn lemma_same_ground_mono(g1: Seq<Tile>, g2: Seq<Tile>, w: int, h: int)
    requires
        same_ground(g1, g2, w, h),
    ensures
        ground_mono(g1, g2, w, h),
        ground_mono(g2, g1, w, h),
{
    reveal(same_ground);
    reveal(ground_mono);
}

/// The carving invariant and exploredness only depend on which cells are
/// carved, so they transfer to a grid carved alike (such as the one the
/// classification pass leaves behind).
pub proof fn lemma_same_ground_inv(
    g1: Seq<Tile>,
    g2: Seq<Tile>,
    w: int,
    h: int,
    rs: Seq<Reward>,
)
    requires
        dims_ok(w, h),
        g1.len() == w * h,
        g2.len() == w * h,
        same_ground(g1, g2, w, h),
        carve_inv(g1, w, h, rs),
        rewards_wf(rs, w, h),
        explored_except(g1, w, h, rs, Set::empty()),
    ensures
        carve_inv(g2, w, h, rs),
        explored_except(g2, w, h, rs, Set::empty()),
{
    lemma_same_ground_mono(g1, g2, w, h);
    assert(carved_ok(g2, w, h)) by {
        reveal(carved_ok);
        assert forall|x: int, y: int|
            in_rect(w, h, x, y) && #[trigger] ground(g2, w, x, y) implies is_lat(x, y) || (
        is_conn(x, y) && 1 <= x <= w - 2 && 1 <= y <= h - 2) by {
            lemma_mono_point(g2, g1, w, h, x, y);
        }
    }
    assert(edges_sound(g2, w, h)) by {
        reveal(carved_ok);
        reveal(edges_sound);
        assert forall|x: int, y: int|
            #![trigger is_conn(x, y), ground(g2, w, x, y)]
            in_rect(w, h, x, y) && is_conn(x, y) && ground(g2, w, x, y) implies (if x % 2 == 0 {
            ground(g2, w, x - 1, y) && ground(g2, w, x + 1, y)
        } else {
            ground(g2, w, x, y - 1) && ground(g2, w, x, y + 1)
        }) by {
            lemma_mono_point(g2, g1, w, h, x, y);
            assert(1 <= x <= w - 2 && 1 <= y <= h - 2);
            if x % 2 == 0 {
                lemma_mono_point(g1, g2, w, h, x - 1, y);
                lemma_mono_point(g1, g2, w, h, x + 1, y);
            } else {
                lemma_mono_point(g1, g2, w, h, x, y - 1);
                lemma_mono_point(g1, g2, w, h, x, y + 1);
            }
        }
    }
    assert(all_connected(g2, w, h)) by {
        reveal(all_connected);
        assert forall|x: int, y: int|
            in_rect(w, h, x, y) && #[trigger] ground(g2, w, x, y) implies reaches(
            g2,
            w,
            h,
            x,
            y,
        ) by {
            lemma_mono_point(g2, g1, w, h, x, y);
            lemma_reaches_mono(g1, g2, w, h, x, y);
        }
    }
    assert(tree_count(g2, w)) by {
        reveal(same_ground);
        assert forall|i: int|
            0 <= i < g1.len() implies (#[trigger] lat_ground_pred(w)(i, g1[i])
            <==> lat_ground_pred(w)(i, g2[i])) by {
            let x = i % w;
            let y = i / w;
            assert(0 <= x < w && 0 <= y < h) by (nonlinear_arith)
                requires
                    w >= 1,
                    h >= 1,
                    0 <= i < w * h,
                    x == i % w,
                    y == i / w,
            ;
            assert(idx(w, x, y) == i) by (nonlinear_arith)
                requires
                    w >= 1,
                    0 <= i,
                    x == i % w,
                    y == i / w,
            ;
            assert(ground(g1, w, x, y) <==> ground(g2, w, x, y));
        }
        assert forall|i: int|
            0 <= i < g1.len() implies (#[trigger] conn_ground_pred(w)(i, g1[i])
            <==> conn_ground_pred(w)(i, g2[i])) by {
            let x = i % w;
            let y = i / w;
            assert(0 <= x < w && 0 <= y < h) by (nonlinear_arith)
                requires
                    w >= 1,
                    h >= 1,
                    0 <= i < w * h,
                    x == i % w,
                    y == i / w,
            ;
            assert(idx(w, x, y) == i) by (nonlinear_arith)
                requires
                    w >= 1,
                    0 <= i,
                    x == i % w,
                    y == i / w,
            ;
            assert(ground(g1, w, x, y) <==> ground(g2, w, x, y));
        }
        lemma_count_cells_eq(g1, g2, lat_ground_pred(w), g1.len() as int);
        lemma_count_cells_eq(g1, g2, conn_ground_pred(w), g1.len() as int);
    }
    assert(rewards_dead_ends(g2, w, rs)) by {
        reveal(rewards_wf);
        reveal(rewards_dead_ends);
        reveal(same_ground);
        assert forall|i: int| 0 <= i < rs.len() implies open_sides(
            g2,
            w,
            (#[trigger] rs[i]).pos.x as int,
            rs[i].pos.y as int,
        ) <= 1 by {
            let rx = rs[i].pos.x as int;
            let ry = rs[i].pos.y as int;
            assert(is_lat(rx, ry) && in_rect(w, h, rx, ry));
            assert(open_sides(g1, w, rx, ry) <= 1);
            assert(1 <= rx <= w - 2 && 1 <= ry <= h - 2);
            assert(ground(g1, w, rx, ry - 1) <==> ground(g2, w, rx, ry - 1));
            assert(ground(g1, w, rx + 1, ry) <==> ground(g2, w, rx + 1, ry));
            assert(ground(g1, w, rx, ry + 1) <==> ground(g2, w, rx, ry + 1));
            assert(ground(g1, w, rx - 1, ry) <==> ground(g2, w, rx - 1, ry));
        }
        assert forall|i: int| 0 <= i < rs.len() implies !ground(
            g2,
            w,
            (#[trigger] rs[i]).pos.x as int,
            rs[i].pos.y as int - 1,
        ) by {
            let rx = rs[i].pos.x as int;
            let ry = rs[i].pos.y as int;
            assert(is_lat(rx, ry) && in_rect(w, h, rx, ry));
            assert(1 <= rx <= w - 2 && 1 <= ry <= h - 2);
            assert(!ground(g1, w, rx, ry - 1));
            assert(ground(g1, w, rx, ry - 1) <==> ground(g2, w, rx, ry - 1));
        }
    }
    assert(explored_except(g2, w, h, rs, Set::empty())) by {
        reveal(explored_except);
        reveal(same_ground);
        assert forall|x: int, y: int|
            #![trigger is_lat(x, y), ground(g2, w, x, y)]
            is_lat(x, y) && in_rect(w, h, x, y) && ground(g2, w, x, y) && !has_reward(rs, x, y)
                && !(x == exit_x(w) && y == exit_y(h)) && !Set::<(int, int)>::empty().contains(
                (x, y),
            ) implies nb_ok(g2, w, h, rs, x, y) by {
            assert(ground(g1, w, x, y) <==> ground(g2, w, x, y));
            assert(nb_ok(g1, w, h, rs, x, y));
            if in_rect(w, h, x, y - 2) {
                assert(ground(g1, w, x, y - 2) <==> ground(g2, w, x, y - 2));
            }
            if in_rect(w, h, x + 2, y) {
                assert(ground(g1, w, x + 2, y) <==> ground(g2, w, x + 2, y));
            }
            if in_rect(w, h, x - 2, y) {
                assert(ground(g1, w, x - 2, y) <==> ground(g2, w, x - 2, y));
            }
            if in_rect(w, h, x, y + 2) {
                assert(ground(g1, w, x, y + 2) <==> ground(g2, w, x, y + 2));
            }
        }
    }
}

/// The carving invariant: everything `carve_from` preserves while it eats
/// through the grid.
pub open spec fn carve_inv(g: Seq<Tile>, w: int, h: int, rs: Seq<Reward>) -> bool {
    &&& g.len() == w * h
    &&& carved_ok(g, w, h)
    &&& edges_sound(g, w, h)
    &&& all_connected(g, w, h)
    &&& tree_count(g, w)
    &&& rewards_dead_ends(g, w, rs)
}

} // verus!
