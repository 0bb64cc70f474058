//! The maze generator: reward placement followed by recursive-backtracking
//! carving, with the connector classification pass at the end.
//!
//! Carving starts at the entry `(1, 1)` and eats through lattice vertices
//! two cells apart, opening the connector between a vertex and a freshly
//! visited neighbor. A branch halts on the exit vertex and on reward
//! vertices, which therefore stay dead ends, and a reward is never entered
//! moving south.

use vstd::prelude::*;

use crate::classify::textured;
use crate::maze::{has_reward, CellIndex, Direction, Maze, MazeError};
use crate::model::{
    adjacent, all_connected, carve_inv, carved_ok, conn_ground_pred, count_cells, dims_ok,
    edges_sound, entry_x, entry_y, exit_x, exit_y, explored_except, ground, ground_mono, idx,
    in_rect, is_conn, is_lat, lat_ground_pred, lat_wall_pred, lemma_count_cells_le,
    lemma_count_cells_update, lemma_idx_bounds, lemma_idx_coords, lemma_idx_injective,
    lemma_mono_point, lemma_mono_refl, lemma_reaches_entry, lemma_reaches_mono,
    lemma_reaches_step, lemma_same_ground_inv, lemma_same_ground_mono, nb_ok, open_sides,
    reaches, rewards_dead_ends, rewards_wf, tree_count,
};
use crate::rewards::Reward;
use crate::tile::Tile;

verus! {

/// Counts are sums of zeros and ones, hence never negative.
proof fn lemma_count_cells_nonneg(g: Seq<Tile>, f: spec_fn(int, Tile) -> bool, n: int)
    ensures
        count_cells(g, f, n) >= 0,
    decreases n,
{
    if n > 0 {
        lemma_count_cells_nonneg(g, f, n - 1);
    }
}

/// Carving more cells never increases the number of walled lattice
/// vertices.
proof fn lemma_mono_wall_count(g1: Seq<Tile>, g2: Seq<Tile>, w: int, h: int)
    requires
        w >= 1,
        h >= 1,
        g1.len() == w * h,
        g2.len() == w * h,
        ground_mono(g1, g2, w, h),
    ensures
        count_cells(g2, lat_wall_pred(w), g2.len() as int) <= count_cells(
            g1,
            lat_wall_pred(w),
            g1.len() as int,
        ),
{
    reveal(crate::model::ground_mono);
    assert forall|i: int|
        0 <= i < g2.len() && #[trigger] lat_wall_pred(w)(i, g2[i]) implies lat_wall_pred(w)(
        i,
        g1[i],
    ) by {
        let x = i % w;
        let y = i / w;
        assert(0 <= x < w && 0 <= y < h) by (nonlinear_arith)
            requires
                w >= 1,
                h >= 1,
                0 <= i < w * h,
                x == i % w,
                y == i / w,
        ;
        assert(idx(w, x, y) == i) by (nonlinear_arith)
            requires
                w >= 1,
                0 <= i,
                x == i % w,
                y == i / w,
        ;
        if g1[i] is Ground {
            assert(ground(g1, w, x, y));
            assert(ground(g2, w, x, y));
        }
    }
    lemma_count_cells_le(g2, g1, lat_wall_pred(w), g2.len() as int);
}

/// Geometry of one carving move: from the carved vertex `c` over the
/// connector `b` into the fresh vertex `n`.
spec fn step_shape(
    w: int,
    h: int,
    cx: int,
    cy: int,
    nx: int,
    ny: int,
    bx: int,
    by: int,
) -> bool {
    &&& dims_ok(w, h)
    &&& is_lat(cx, cy)
    &&& in_rect(w, h, cx, cy)
    &&& is_lat(nx, ny)
    &&& in_rect(w, h, nx, ny)
    &&& ((nx == cx && (ny == cy - 2 || ny == cy + 2)) || (ny == cy && (nx == cx - 2 || nx == cx
        + 2)))
    &&& 2 * bx == cx + nx
    &&& 2 * by == cy + ny
}

/// The move changed exactly the connector and the fresh vertex, both to
/// ground.
#[verifier::opaque]
spec fn carve_delta(
    g: Seq<Tile>,
    g2: Seq<Tile>,
    w: int,
    h: int,
    nx: int,
    ny: int,
    bx: int,
    by: int,
) -> bool {
    forall|x: int, y: int|
        in_rect(w, h, x, y) ==> (#[trigger] ground(g2, w, x, y) <==> (ground(g, w, x, y) || (x
            == bx && y == by) || (x == nx && y == ny)))
}

/// Derived facts of the move's geometry.
proof fn lemma_step_shape(
    w: int,
    h: int,
    cx: int,
    cy: int,
    nx: int,
    ny: int,
    bx: int,
    by: int,
)
    requires
        step_shape(w, h, cx, cy, nx, ny, bx, by),
    ensures
        is_conn(bx, by),
        in_rect(w, h, bx, by),
        1 <= bx <= w - 2,
        1 <= by <= h - 2,
        adjacent(cx, cy, bx, by),
        adjacent(bx, by, nx, ny),
        !(bx == nx && by == ny),
        !(bx == cx && by == cy),
        1 <= cx <= w - 2 && 1 <= cy <= h - 2,
        1 <= nx <= w - 2 && 1 <= ny <= h - 2,
{
}

/// Updating the two cells of a carving move produces exactly the delta.
proof fn lemma_carve_delta(
    g: Seq<Tile>,
    w: int,
    h: int,
    cx: int,
    cy: int,
    nx: int,
    ny: int,
    bx: int,
    by: int,
)
    requires
        step_shape(w, h, cx, cy, nx, ny, bx, by),
        g.len() == w * h,
    ensures
        ({
            let g2 = g.update(idx(w, bx, by), Tile::Ground).update(idx(w, nx, ny), Tile::Ground);
            &&& g2.len() == g.len()
            &&& carve_delta(g, g2, w, h, nx, ny, bx, by)
            &&& ground_mono(g, g2, w, h)
            &&& ground(g2, w, nx, ny)
            &&& ground(g2, w, bx, by)
        }),
{
    reveal(carve_delta);
    reveal(crate::model::ground_mono);
    let i_b = idx(w, bx, by);
    let i_n = idx(w, nx, ny);
    let g2 = g.update(i_b, Tile::Ground).update(i_n, Tile::Ground);
    lemma_step_shape(w, h, cx, cy, nx, ny, bx, by);
    lemma_idx_bounds(w, h, bx, by);
    lemma_idx_bounds(w, h, nx, ny);
    assert forall|x: int, y: int| in_rect(w, h, x, y) implies (#[trigger] ground(g2, w, x, y)
        <==> (ground(g, w, x, y) || (x == bx && y == by) || (x == nx && y == ny))) by {
        lemma_idx_bounds(w, h, x, y);
        if idx(w, x, y) == i_b {
            lemma_idx_injective(w, x, y, bx, by);
        }
        if idx(w, x, y) == i_n {
            lemma_idx_injective(w, x, y, nx, ny);
        }
    }
    assert(ground(g2, w, nx, ny));
    assert(ground(g2, w, bx, by));
}

/// The connector of a legal move was still walled before the move.
proof fn lemma_between_walled(
    g: Seq<Tile>,
    w: int,
    h: int,
    cx: int,
    cy: int,
    nx: int,
    ny: int,
    bx: int,
    by: int,
)
    requires
        step_shape(w, h, cx, cy, nx, ny, bx, by),
        g.len() == w * h,
        edges_sound(g, w, h),
        !ground(g, w, nx, ny),
    ensures
        !ground(g, w, bx, by),
{
    reveal(crate::model::edges_sound);
    lemma_step_shape(w, h, cx, cy, nx, ny, bx, by);
    if ground(g, w, bx, by) {
        assert(in_rect(w, h, bx, by) && is_conn(bx, by) && ground(g, w, bx, by));
        assert(ground(g, w, nx, ny));
    }
}

/// The move keeps carving inside lattice vertices and interior connectors.
proof fn lemma_step_carved_ok(
    g: Seq<Tile>,
    g2: Seq<Tile>,
    w: int,
    h: int,
    cx: int,
    cy: int,
    nx: int,
    ny: int,
    bx: int,
    by: int,
)
    requires
        step_shape(w, h, cx, cy, nx, ny, bx, by),
        carve_delta(g, g2, w, h, nx, ny, bx, by),
        carved_ok(g, w, h),
    ensures
        carved_ok(g2, w, h),
{
    reveal(carve_delta);
    reveal(crate::model::carved_ok);
    lemma_step_shape(w, h, cx, cy, nx, ny, bx, by);
    assert forall|x: int, y: int|
        in_rect(w, h, x, y) && #[trigger] ground(g2, w, x, y) implies is_lat(x, y) || (is_conn(
        x,
        y,
    ) && 1 <= x <= w - 2 && 1 <= y <= h - 2) by {
        if ground(g, w, x, y) {
        } else if x == bx && y == by {
        } else {
            assert(x == nx && y == ny);
        }
    }
}

/// The move keeps every carved connector joined to two carved vertices.
proof fn lemma_step_edges(
    g: Seq<Tile>,
    g2: Seq<Tile>,
    w: int,
    h: int,
    cx: int,
    cy: int,
    nx: int,
    ny: int,
    bx: int,
    by: int,
)
    requires
        step_shape(w, h, cx, cy, nx, ny, bx, by),
        carve_delta(g, g2, w, h, nx, ny, bx, by),
        edges_sound(g, w, h),
        carved_ok(g, w, h),
        ground(g, w, cx, cy),
    ensures
        edges_sound(g2, w, h),
{
    reveal(carve_delta);
    reveal(crate::model::carved_ok);
    reveal(crate::model::edges_sound);
    lemma_step_shape(w, h, cx, cy, nx, ny, bx, by);
    assert forall|x: int, y: int|
        #![trigger is_conn(x, y), ground(g2, w, x, y)]
        in_rect(w, h, x, y) && is_conn(x, y) && ground(g2, w, x, y) implies (if x % 2 == 0 {
        ground(g2, w, x - 1, y) && ground(g2, w, x + 1, y)
    } else {
        ground(g2, w, x, y - 1) && ground(g2, w, x, y + 1)
    }) by {
        if ground(g, w, x, y) {
            assert(in_rect(w, h, x, y) && is_conn(x, y) && ground(g, w, x, y));
            assert(1 <= x <= w - 2 && 1 <= y <= h - 2);
            if x % 2 == 0 {
                assert(ground(g, w, x - 1, y) && ground(g, w, x + 1, y));
                assert(in_rect(w, h, x - 1, y) && in_rect(w, h, x + 1, y));
                assert(ground(g2, w, x - 1, y) && ground(g2, w, x + 1, y));
            } else {
                assert(ground(g, w, x, y - 1) && ground(g, w, x, y + 1));
                assert(in_rect(w, h, x, y - 1) && in_rect(w, h, x, y + 1));
                assert(ground(g2, w, x, y - 1) && ground(g2, w, x, y + 1));
            }
        } else {
            assert(x == bx && y == by);
            assert(ground(g2, w, cx, cy) && ground(g2, w, nx, ny));
        }
    }
}

/// Both fresh cells hang off the already connected vertex `c`.
proof fn lemma_step_connected(
    g: Seq<Tile>,
    g2: Seq<Tile>,
    w: int,
    h: int,
    cx: int,
    cy: int,
    nx: int,
    ny: int,
    bx: int,
    by: int,
)
    requires
        step_shape(w, h, cx, cy, nx, ny, bx, by),
        carve_delta(g, g2, w, h, nx, ny, bx, by),
        ground_mono(g, g2, w, h),
        all_connected(g, w, h),
        ground(g, w, cx, cy),
    ensures
        all_connected(g2, w, h),
{
    reveal(carve_delta);
    reveal(crate::model::all_connected);
    lemma_step_shape(w, h, cx, cy, nx, ny, bx, by);
    assert(reaches(g, w, h, cx, cy));
    lemma_reaches_mono(g, g2, w, h, cx, cy);
    assert(ground(g2, w, bx, by));
    lemma_reaches_step(g2, w, h, cx, cy, bx, by);
    assert(ground(g2, w, nx, ny));
    lemma_reaches_step(g2, w, h, bx, by, nx, ny);
    assert forall|x: int, y: int|
        in_rect(w, h, x, y) && #[trigger] ground(g2, w, x, y) implies reaches(g2, w, h, x, y) by {
        if ground(g, w, x, y) {
            lemma_reaches_mono(g, g2, w, h, x, y);
        } else if x == bx && y == by {
        } else {
            assert(x == nx && y == ny);
        }
    }
}

/// The move adds exactly one carved vertex and one carved connector.
proof fn lemma_step_counts(
    g: Seq<Tile>,
    w: int,
    h: int,
    cx: int,
    cy: int,
    nx: int,
    ny: int,
    bx: int,
    by: int,
)
    requires
        step_shape(w, h, cx, cy, nx, ny, bx, by),
        g.len() == w * h,
        tree_count(g, w),
        !ground(g, w, nx, ny),
        !ground(g, w, bx, by),
    ensures
        ({
            let g2 = g.update(idx(w, bx, by), Tile::Ground).update(idx(w, nx, ny), Tile::Ground);
            &&& tree_count(g2, w)
            &&& count_cells(g2, lat_wall_pred(w), g2.len() as int) == count_cells(
                g,
                lat_wall_pred(w),
                g.len() as int,
            ) - 1
        }),
{
    let i_b = idx(w, bx, by);
    let i_n = idx(w, nx, ny);
    let g1 = g.update(i_b, Tile::Ground);
    let g2 = g1.update(i_n, Tile::Ground);
    lemma_step_shape(w, h, cx, cy, nx, ny, bx, by);
    lemma_idx_bounds(w, h, bx, by);
    lemma_idx_bounds(w, h, nx, ny);
    lemma_idx_coords(w, h, bx, by);
    lemma_idx_coords(w, h, nx, ny);
    assert(i_b != i_n) by {
        if i_b == i_n {
            lemma_idx_injective(w, bx, by, nx, ny);
        }
    }
    lemma_count_cells_update(g, lat_ground_pred(w), g.len() as int, i_b, Tile::Ground);
    lemma_count_cells_update(g, conn_ground_pred(w), g.len() as int, i_b, Tile::Ground);
    lemma_count_cells_update(g, lat_wall_pred(w), g.len() as int, i_b, Tile::Ground);
    lemma_count_cells_update(g1, lat_ground_pred(w), g1.len() as int, i_n, Tile::Ground);
    lemma_count_cells_update(g1, conn_ground_pred(w), g1.len() as int, i_n, Tile::Ground);
    lemma_count_cells_update(g1, lat_wall_pred(w), g1.len() as int, i_n, Tile::Ground);
    assert(!(lat_ground_pred(w)(i_b, Tile::Ground)));
    assert(conn_ground_pred(w)(i_b, Tile::Ground));
    assert(!(conn_ground_pred(w)(i_b, g[i_b])));
    assert(!(lat_wall_pred(w)(i_b, Tile::Ground)));
    assert(!(lat_wall_pred(w)(i_b, g[i_b])));
    assert(lat_ground_pred(w)(i_n, Tile::Ground));
    assert(g1[i_n] == g[i_n]);
    assert(!(lat_ground_pred(w)(i_n, g1[i_n])));
    assert(!(conn_ground_pred(w)(i_n, Tile::Ground)));
    assert(!(conn_ground_pred(w)(i_n, g1[i_n])));
    assert(!(lat_wall_pred(w)(i_n, Tile::Ground)));
    assert(lat_wall_pred(w)(i_n, g1[i_n]));
}

/// Reward vertices stay dead ends under the move.
proof fn lemma_step_rewards(
    g: Seq<Tile>,
    g2: Seq<Tile>,
    w: int,
    h: int,
    rs: Seq<Reward>,
    cx: int,
    cy: int,
    nx: int,
    ny: int,
    bx: int,
    by: int,
)
    requires
        step_shape(w, h, cx, cy, nx, ny, bx, by),
        carve_delta(g, g2, w, h, nx, ny, bx, by),
        g.len() == w * h,
        edges_sound(g, w, h),
        rewards_wf(rs, w, h),
        rewards_dead_ends(g, w, rs),
        !has_reward(rs, cx, cy),
        !ground(g, w, nx, ny),
        has_reward(rs, nx, ny) ==> ny != cy + 2,
    ensures
        rewards_dead_ends(g2, w, rs),
{
    reveal(carve_delta);
    reveal(crate::model::edges_sound);
    reveal(crate::model::rewards_wf);
    reveal(crate::model::rewards_dead_ends);
    lemma_step_shape(w, h, cx, cy, nx, ny, bx, by);
    assert forall|i: int| 0 <= i < rs.len() implies open_sides(
        g2,
        w,
        (#[trigger] rs[i]).pos.x as int,
        rs[i].pos.y as int,
    ) <= 1 by {
        let rx = rs[i].pos.x as int;
        let ry = rs[i].pos.y as int;
        assert(is_lat(rx, ry) && in_rect(w, h, rx, ry));
        assert(1 <= rx <= w - 2 && 1 <= ry <= h - 2);
        assert(open_sides(g, w, rx, ry) <= 1);
        if rx == nx && ry == ny {
            // A fresh vertex had no carved side: a carved side connector
            // would force the vertex itself to be carved.
            assert(!ground(g, w, nx, ny - 1)) by {
                if ground(g, w, nx, ny - 1) {
                    assert(in_rect(w, h, nx, ny - 1) && is_conn(nx, ny - 1));
                    assert(ground(g, w, nx, ny));
                }
            }
            assert(!ground(g, w, nx + 1, ny)) by {
                if ground(g, w, nx + 1, ny) {
                    assert(in_rect(w, h, nx + 1, ny) && is_conn(nx + 1, ny));
                    assert(ground(g, w, nx, ny));
                }
            }
            assert(!ground(g, w, nx, ny + 1)) by {
                if ground(g, w, nx, ny + 1) {
                    assert(in_rect(w, h, nx, ny + 1) && is_conn(nx, ny + 1));
                    assert(ground(g, w, nx, ny));
                }
            }
            assert(!ground(g, w, nx - 1, ny)) by {
                if ground(g, w, nx - 1, ny) {
                    assert(in_rect(w, h, nx - 1, ny) && is_conn(nx - 1, ny));
                    assert(ground(g, w, nx, ny));
                }
            }
            assert(open_sides(g2, w, rx, ry) <= 1);
        } else {
            // The reward is neither endpoint of the new connector, so none
            // of its four sides changed.
            assert(!(rx == cx && ry == cy)) by {
                if rx == cx && ry == cy {
                    assert(has_reward(rs, cx, cy));
                }
            }
            assert(ground(g2, w, rx, ry - 1) == ground(g, w, rx, ry - 1));
            assert(ground(g2, w, rx + 1, ry) == ground(g, w, rx + 1, ry));
            assert(ground(g2, w, rx, ry + 1) == ground(g, w, rx, ry + 1));
            assert(ground(g2, w, rx - 1, ry) == ground(g, w, rx - 1, ry));
        }
    }
    // The connector above a reward stays walled: it could only have been
    // the one just opened, and that would mean the move entered the reward
    // from above.
    assert forall|i: int| 0 <= i < rs.len() implies !ground(
        g2,
        w,
        (#[trigger] rs[i]).pos.x as int,
        rs[i].pos.y as int - 1,
    ) by {
        let rx = rs[i].pos.x as int;
        let ry = rs[i].pos.y as int;
        assert(is_lat(rx, ry) && in_rect(w, h, rx, ry));
        assert(1 <= rx <= w - 2 && 1 <= ry <= h - 2);
        assert(!ground(g, w, rx, ry - 1));
        assert(in_rect(w, h, rx, ry - 1));
        if ground(g2, w, rx, ry - 1) {
            // Only the new connector can have opened there, and then its
            // south endpoint is the reward itself: the move either left
            // the reward or entered it from above, and neither happens.
            if rx == bx && ry - 1 == by {
                if bx == nx && by == ny - 1 {
                    assert(rx == nx && ry == ny);
                    assert(ny == cy + 2);
                    assert(has_reward(rs, nx, ny));
                    assert(false);
                } else {
                    assert(bx == cx && by == cy - 1 || by == cy && (bx == cx - 1 || bx == cx
                        + 1));
                    if bx == cx && by == cy - 1 {
                        assert(rx == cx && ry == cy);
                        assert(has_reward(rs, cx, cy));
                        assert(false);
                    } else {
                        // A horizontal connector has an even x and odd y,
                        // but it would have to sit at the reward's even
                        // row.
                        assert(by == cy && cy % 2 == 1);
                        assert((ry - 1) % 2 == 0);
                        assert(false);
                    }
                }
            } else {
                assert(rx == nx && ry - 1 == ny);
                assert(ny % 2 == 1 && (ry - 1) % 2 == 0);
                assert(false);
            }
        }
    }
}

/// Exploredness is only suspended for the fresh vertex.
proof fn lemma_step_explored(
    g: Seq<Tile>,
    g2: Seq<Tile>,
    w: int,
    h: int,
    rs: Seq<Reward>,
    cx: int,
    cy: int,
    nx: int,
    ny: int,
    bx: int,
    by: int,
    s: Set<(int, int)>,
)
    requires
        step_shape(w, h, cx, cy, nx, ny, bx, by),
        carve_delta(g, g2, w, h, nx, ny, bx, by),
        ground_mono(g, g2, w, h),
        explored_except(g, w, h, rs, s),
    ensures
        explored_except(g2, w, h, rs, s.insert((nx, ny))),
{
    reveal(carve_delta);
    reveal(crate::model::explored_except);
    lemma_step_shape(w, h, cx, cy, nx, ny, bx, by);
    assert forall|x: int, y: int|
        #![trigger is_lat(x, y), ground(g2, w, x, y)]
        is_lat(x, y) && in_rect(w, h, x, y) && ground(g2, w, x, y) && !has_reward(rs, x, y) && !(
        x == exit_x(w) && y == exit_y(h)) && !s.insert((nx, ny)).contains((x, y)) implies nb_ok(
        g2,
        w,
        h,
        rs,
        x,
        y,
    ) by {
        assert(!(x == nx && y == ny));
        assert(!(x == bx && y == by));
        assert(ground(g, w, x, y));
        assert(!s.contains((x, y)));
        assert(nb_ok(g, w, h, rs, x, y));
        assert(in_rect(w, h, x, y - 2) ==> ground(g, w, x, y - 2) ==> ground(g2, w, x, y - 2));
        assert(in_rect(w, h, x + 2, y) ==> ground(g, w, x + 2, y) ==> ground(g2, w, x + 2, y));
        assert(in_rect(w, h, x - 2, y) ==> ground(g, w, x - 2, y) ==> ground(g2, w, x - 2, y));
        assert(in_rect(w, h, x, y + 2) ==> ground(g, w, x, y + 2) ==> ground(g2, w, x, y + 2));
    }
}

/// A vertex leaves the exception set once it is fully explored, a reward,
/// or the exit.
proof fn lemma_pop_except(
    g: Seq<Tile>,
    w: int,
    h: int,
    rs: Seq<Reward>,
    s: Set<(int, int)>,
    cx: int,
    cy: int,
)
    requires
        explored_except(g, w, h, rs, s.insert((cx, cy))),
        has_reward(rs, cx, cy) || (cx == exit_x(w) && cy == exit_y(h)) || nb_ok(g, w, h, rs, cx, cy),
    ensures
        explored_except(g, w, h, rs, s),
{
    reveal(crate::model::explored_except);
    assert forall|x: int, y: int|
        #![trigger is_lat(x, y), ground(g, w, x, y)]
        is_lat(x, y) && in_rect(w, h, x, y) && ground(g, w, x, y) && !has_reward(rs, x, y) && !(x
            == exit_x(w) && y == exit_y(h)) && !s.contains((x, y)) implies nb_ok(
        g,
        w,
        h,
        rs,
        x,
        y,
    ) by {
        if !(x == cx && y == cy) {
            assert(!s.insert((cx, cy)).contains((x, y)));
        }
    }
}

/// One legal carving move preserves the whole carving invariant.
proof fn lemma_carve_step(
    g: Seq<Tile>,
    w: int,
    h: int,
    rs: Seq<Reward>,
    cx: int,
    cy: int,
    nx: int,
    ny: int,
    bx: int,
    by: int,
)
    requires
        step_shape(w, h, cx, cy, nx, ny, bx, by),
        carve_inv(g, w, h, rs),
        rewards_wf(rs, w, h),
        ground(g, w, cx, cy),
        !has_reward(rs, cx, cy),
        !ground(g, w, nx, ny),
        has_reward(rs, nx, ny) ==> ny != cy + 2,
    ensures
        ({
            let g2 = g.update(idx(w, bx, by), Tile::Ground).update(idx(w, nx, ny), Tile::Ground);
            &&& carve_inv(g2, w, h, rs)
            &&& ground_mono(g, g2, w, h)
            &&& ground(g2, w, nx, ny)
            &&& ground(g2, w, cx, cy)
            &&& g2.len() == g.len()
            &&& count_cells(g2, lat_wall_pred(w), g2.len() as int) == count_cells(
                g,
                lat_wall_pred(w),
                g.len() as int,
            ) - 1
            &&& forall|s: Set<(int, int)>|
                #[trigger] explored_except(g, w, h, rs, s) ==> explored_except(
                    g2,
                    w,
                    h,
                    rs,
                    s.insert((nx, ny)),
                )
        }),
{
    reveal(crate::model::ground_mono);
    let g2 = g.update(idx(w, bx, by), Tile::Ground).update(idx(w, nx, ny), Tile::Ground);
    lemma_carve_delta(g, w, h, cx, cy, nx, ny, bx, by);
    lemma_between_walled(g, w, h, cx, cy, nx, ny, bx, by);
    lemma_step_carved_ok(g, g2, w, h, cx, cy, nx, ny, bx, by);
    lemma_step_edges(g, g2, w, h, cx, cy, nx, ny, bx, by);
    lemma_step_connected(g, g2, w, h, cx, cy, nx, ny, bx, by);
    lemma_step_counts(g, w, h, cx, cy, nx, ny, bx, by);
    lemma_step_rewards(g, g2, w, h, rs, cx, cy, nx, ny, bx, by);
    assert(ground(g2, w, cx, cy));
    assert forall|s: Set<(int, int)>| #[trigger] explored_except(g, w, h, rs, s) implies
        explored_except(g2, w, h, rs, s.insert((nx, ny))) by {
        lemma_step_explored(g, g2, w, h, rs, cx, cy, nx, ny, bx, by, s);
    }
}

/// Is there a reward at `(x, y)`? Linear scan of the placement list.
fn reward_at(rewards: &Vec<Reward>, x: usize, y: usize) -> (b: bool)
    ensures
        b == has_reward(rewards@, x as int, y as int),
{
    let n = rewards.len();
    let mut i: usize = 0;
    while i < n
        invariant
            i <= n,
            n == rewards@.len(),
            forall|j: int|
                0 <= j < i ==> !((#[trigger] rewards@[j]).pos.x == x && rewards@[j].pos.y == y),
        decreases n - i,
    {
        if rewards[i].pos.x == x && rewards[i].pos.y == y {
            return true;
        }
        i += 1;
    }
    false
}

/// The carving move offered in direction `d` away from `(cx, cy)` needs no
/// further work: the lattice neighbor there is outside the grid, already
/// carved, or a reward that must not be entered moving south.
spec fn dir_done(
    g: Seq<Tile>,
    w: int,
    h: int,
    rs: Seq<Reward>,
    cx: int,
    cy: int,
    d: Direction,
) -> bool {
    in_rect(w, h, cx + 2 * d.spec_dx(), cy + 2 * d.spec_dy()) ==> (ground(
        g,
        w,
        cx + 2 * d.spec_dx(),
        cy + 2 * d.spec_dy(),
    ) || (d == Direction::South && has_reward(rs, cx + 2 * d.spec_dx(), cy + 2 * d.spec_dy())))
}

/// A vertex whose four directions are all done is fully explored.
proof fn lemma_dirs_done_nb_ok(
    g: Seq<Tile>,
    w: int,
    h: int,
    rs: Seq<Reward>,
    cx: int,
    cy: int,
)
    requires
        dir_done(g, w, h, rs, cx, cy, Direction::North),
        dir_done(g, w, h, rs, cx, cy, Direction::East),
        dir_done(g, w, h, rs, cx, cy, Direction::South),
        dir_done(g, w, h, rs, cx, cy, Direction::West),
    ensures
        nb_ok(g, w, h, rs, cx, cy),
{
}

/// Shared state of the carving recursion.
spec fn carve_state(g: Seq<Tile>, w: int, h: int, rs: Seq<Reward>) -> bool {
    &&& dims_ok(w, h)
    &&& w * h <= usize::MAX
    &&& carve_inv(g, w, h, rs)
    &&& rewards_wf(rs, w, h)
}

/// Carving monotonicity composes.
proof fn lemma_mono_trans(g1: Seq<Tile>, g2: Seq<Tile>, g3: Seq<Tile>, w: int, h: int)
    requires
        ground_mono(g1, g2, w, h),
        ground_mono(g2, g3, w, h),
    ensures
        ground_mono(g1, g3, w, h),
{
    reveal(crate::model::ground_mono);
    assert forall|x: int, y: int|
        in_rect(w, h, x, y) && #[trigger] ground(g1, w, x, y) implies ground(g3, w, x, y) by {
        assert(ground(g2, w, x, y));
    }
}

/// A move once done stays done while carving continues.
proof fn lemma_dir_done_mono(
    g1: Seq<Tile>,
    g2: Seq<Tile>,
    w: int,
    h: int,
    rs: Seq<Reward>,
    cx: int,
    cy: int,
    d: Direction,
)
    requires
        ground_mono(g1, g2, w, h),
        dir_done(g1, w, h, rs, cx, cy, d),
    ensures
        dir_done(g2, w, h, rs, cx, cy, d),
{
    reveal(crate::model::ground_mono);
    let nx = cx + 2 * d.spec_dx();
    let ny = cy + 2 * d.spec_dy();
    if in_rect(w, h, nx, ny) && ground(g1, w, nx, ny) {
        assert(ground(g2, w, nx, ny));
    }
}

/// Offers the carving move in direction `d` away from the carved vertex
/// `(cx, cy)`: if the lattice neighbor there lies inside the grid, is
/// still walled, and is not a reward entered moving south, the connector
/// toward it is opened and carving recurses from it.
#[verifier::rlimit(100)]
#[verifier::spinoff_prover]
fn try_carve_dir(
    w: usize,
    h: usize,
    tiles: Vec<Tile>,
    rewards: &Vec<Reward>,
    cx: usize,
    cy: usize,
    d: Direction,
    rng: &mut rand::rngs::StdRng,
    stack: Ghost<Set<(int, int)>>,
) -> (res: Vec<Tile>)
    requires
        carve_state(tiles@, w as int, h as int, rewards@),
        is_lat(cx as int, cy as int),
        in_rect(w as int, h as int, cx as int, cy as int),
        ground(tiles@, w as int, cx as int, cy as int),
        !has_reward(rewards@, cx as int, cy as int),
        explored_except(
            tiles@,
            w as int,
            h as int,
            rewards@,
            stack@.insert((cx as int, cy as int)),
        ),
    ensures
        res@.len() == tiles@.len(),
        ground_mono(tiles@, res@, w as int, h as int),
        carve_state(res@, w as int, h as int, rewards@),
        count_cells(res@, lat_wall_pred(w as int), res@.len() as int) <= count_cells(
            tiles@,
            lat_wall_pred(w as int),
            tiles@.len() as int,
        ),
        explored_except(
            res@,
            w as int,
            h as int,
            rewards@,
            stack@.insert((cx as int, cy as int)),
        ),
        dir_done(res@, w as int, h as int, rewards@, cx as int, cy as int, d),
    decreases 2 * count_cells(tiles@, lat_wall_pred(w as int), tiles@.len() as int),
{
    proof {
        assert(cx + 2 <= usize::MAX && cy + 2 <= usize::MAX) by (nonlinear_arith)
            requires
                w * h <= usize::MAX,
                w >= 5,
                h >= 5,
                cx < w,
                cy < h,
        ;
    }
    let step: Option<(usize, usize, usize, usize)> = match d {
        Direction::North => if cy >= 2 {
            Some((cx, cy - 2, cx, cy - 1))
        } else {
            None
        },
        Direction::East => if cx + 2 < w {
            Some((cx + 2, cy, cx + 1, cy))
        } else {
            None
        },
        Direction::South => if cy + 2 < h {
            Some((cx, cy + 2, cx, cy + 1))
        } else {
            None
        },
        Direction::West => if cx >= 2 {
            Some((cx - 2, cy, cx - 1, cy))
        } else {
            None
        },
    };
    match step {
        None => {
            proof {
                lemma_mono_refl(tiles@, w as int, h as int);
                assert(!in_rect(
                    w as int,
                    h as int,
                    cx as int + 2 * d.spec_dx(),
                    cy as int + 2 * d.spec_dy(),
                ));
            }
            tiles
        },
        Some((nx, ny, bx, by)) => {
            proof {
                assert(nx as int == cx as int + 2 * d.spec_dx());
                assert(ny as int == cy as int + 2 * d.spec_dy());
                assert(step_shape(
                    w as int,
                    h as int,
                    cx as int,
                    cy as int,
                    nx as int,
                    ny as int,
                    bx as int,
                    by as int,
                ));
                lemma_idx_bounds(w as int, h as int, nx as int, ny as int);
            }
            let t = tiles[ny * w + nx];
            if !t.is_wall() {
                // Already visited: nothing to do in this direction.
                proof {
                    lemma_mono_refl(tiles@, w as int, h as int);
                    assert(ground(tiles@, w as int, nx as int, ny as int));
                }
                tiles
            } else {
                let rw = reward_at(rewards, nx, ny);
                let south = matches!(d, Direction::South);
                if rw && south {
                    // A reward is never approached moving south.
                    proof {
                        lemma_mono_refl(tiles@, w as int, h as int);
                        assert(dir_done(
                            tiles@,
                            w as int,
                            h as int,
                            rewards@,
                            cx as int,
                            cy as int,
                            d,
                        ));
                    }
                    tiles
                } else {
                    let ghost g0 = tiles@;
                    proof {
                        if rw {
                            assert(!(d is South));
                            assert(ny as int != cy as int + 2);
                        }
                        lemma_step_shape(
                            w as int,
                            h as int,
                            cx as int,
                            cy as int,
                            nx as int,
                            ny as int,
                            bx as int,
                            by as int,
                        );
                        lemma_idx_bounds(w as int, h as int, bx as int, by as int);
                        lemma_carve_step(
                            g0,
                            w as int,
                            h as int,
                            rewards@,
                            cx as int,
                            cy as int,
                            nx as int,
                            ny as int,
                            bx as int,
                            by as int,
                        );
                    }
                    let mut tiles = tiles;
                    tiles[by * w + bx] = Tile::Ground;
                    tiles[ny * w + nx] = Tile::Ground;
                    let ghost g2 = g0.update(
                        idx(w as int, bx as int, by as int),
                        Tile::Ground,
                    ).update(idx(w as int, nx as int, ny as int), Tile::Ground);
                    proof {
                        assert(tiles@ == g2);
                        lemma_count_cells_nonneg(g2, lat_wall_pred(w as int), g2.len() as int);
                        assert(count_cells(g2, lat_wall_pred(w as int), g2.len() as int)
                            < count_cells(g0, lat_wall_pred(w as int), g0.len() as int));
                        assert(explored_except(
                            g2,
                            w as int,
                            h as int,
                            rewards@,
                            stack@.insert((cx as int, cy as int)).insert((nx as int, ny as int)),
                        ));
                    }
                    let tiles = carve_from(
                        w,
                        h,
                        tiles,
                        rewards,
                        nx,
                        ny,
                        rng,
                        Ghost(stack@.insert((cx as int, cy as int))),
                    );
                    proof {
                        lemma_mono_trans(g0, g2, tiles@, w as int, h as int);
                        lemma_mono_wall_count(g2, tiles@, w as int, h as int);
                        assert(ground(g2, w as int, nx as int, ny as int));
                        lemma_mono_point(g2, tiles@, w as int, h as int, nx as int, ny as int);
                        lemma_mono_point(g2, tiles@, w as int, h as int, cx as int, cy as int);
                    }
                    tiles
                }
            }
        },
    }
}

/// Recursive-backtracking carving from the carved vertex `(cx, cy)`.
///
/// Offers the four directions in a random order; halts at once on the exit
/// vertex and on rewards, which therefore stay dead ends. The ghost
/// `stack` holds the vertices of the enclosing calls, which are not yet
/// fully explored.
#[verifier::rlimit(100)]
#[verifier::spinoff_prover]
#[verifier::loop_isolation(false)]
fn carve_from(
    w: usize,
    h: usize,
    tiles: Vec<Tile>,
    rewards: &Vec<Reward>,
    cx: usize,
    cy: usize,
    rng: &mut rand::rngs::StdRng,
    stack: Ghost<Set<(int, int)>>,
) -> (res: Vec<Tile>)
    requires
        carve_state(tiles@, w as int, h as int, rewards@),
        is_lat(cx as int, cy as int),
        in_rect(w as int, h as int, cx as int, cy as int),
        ground(tiles@, w as int, cx as int, cy as int),
        explored_except(
            tiles@,
            w as int,
            h as int,
            rewards@,
            stack@.insert((cx as int, cy as int)),
        ),
    ensures
        res@.len() == tiles@.len(),
        ground_mono(tiles@, res@, w as int, h as int),
        carve_state(res@, w as int, h as int, rewards@),
        ground(res@, w as int, cx as int, cy as int),
        explored_except(res@, w as int, h as int, rewards@, stack@),
    decreases 2 * count_cells(tiles@, lat_wall_pred(w as int), tiles@.len() as int) + 1,
{
    proof {
        lemma_count_cells_nonneg(tiles@, lat_wall_pred(w as int), tiles@.len() as int);
    }
    if cx == w - 2 && cy == h - 2 {
        proof {
            lemma_mono_refl(tiles@, w as int, h as int);
            lemma_pop_except(tiles@, w as int, h as int, rewards@, stack@, cx as int, cy as int);
        }
        return tiles;
    }
    if reward_at(rewards, cx, cy) {
        proof {
            lemma_mono_refl(tiles@, w as int, h as int);
            lemma_pop_except(tiles@, w as int, h as int, rewards@, stack@, cx as int, cy as int);
        }
        return tiles;
    }
    let ghost g_entry = tiles@;
    proof {
        lemma_mono_refl(tiles@, w as int, h as int);
    }
    let mut tiles = tiles;
    let mut dirs: Vec<Direction> = Vec::new();
    dirs.push(Direction::North);
    dirs.push(Direction::East);
    dirs.push(Direction::South);
    dirs.push(Direction::West);
    proof {
        assert(dirs@[0] == Direction::North);
        assert(dirs@[1] == Direction::East);
        assert(dirs@[2] == Direction::South);
        assert(dirs@[3] == Direction::West);
        assert(dirs@.contains(Direction::North));
        assert(dirs@.contains(Direction::East));
        assert(dirs@.contains(Direction::South));
        assert(dirs@.contains(Direction::West));
    }
    crate::randsrc::shuffle_directions(rng, &mut dirs);
    let mut k: usize = 0;
    while k < 4
        invariant
            dirs@.len() == 4,
            dirs@.contains(Direction::North),
            dirs@.contains(Direction::East),
            dirs@.contains(Direction::South),
            dirs@.contains(Direction::West),
            k <= 4,
            carve_state(tiles@, w as int, h as int, rewards@),
            is_lat(cx as int, cy as int),
            in_rect(w as int, h as int, cx as int, cy as int),
            ground(tiles@, w as int, cx as int, cy as int),
            !has_reward(rewards@, cx as int, cy as int),
            ground_mono(g_entry, tiles@, w as int, h as int),
            tiles@.len() == g_entry.len(),
            count_cells(tiles@, lat_wall_pred(w as int), tiles@.len() as int) <= count_cells(
                g_entry,
                lat_wall_pred(w as int),
                g_entry.len() as int,
            ),
            explored_except(
                tiles@,
                w as int,
                h as int,
                rewards@,
                stack@.insert((cx as int, cy as int)),
            ),
            forall|j: int|
                0 <= j < k ==> dir_done(
                    tiles@,
                    w as int,
                    h as int,
                    rewards@,
                    cx as int,
                    cy as int,
                    #[trigger] dirs@[j],
                ),
        decreases 4 - k,
    {
        let ghost g_iter = tiles@;
        let d = dirs[k];
        proof {
            lemma_count_cells_nonneg(tiles@, lat_wall_pred(w as int), tiles@.len() as int);
        }
        tiles = try_carve_dir(w, h, tiles, rewards, cx, cy, d, rng, stack);
        proof {
            lemma_mono_trans(g_entry, g_iter, tiles@, w as int, h as int);
            lemma_mono_point(g_iter, tiles@, w as int, h as int, cx as int, cy as int);
            assert forall|j: int| 0 <= j < k + 1 implies dir_done(
                tiles@,
                w as int,
                h as int,
                rewards@,
                cx as int,
                cy as int,
                #[trigger] dirs@[j],
            ) by {
                if j < k {
                    lemma_dir_done_mono(
                        g_iter,
                        tiles@,
                        w as int,
                        h as int,
                        rewards@,
                        cx as int,
                        cy as int,
                        dirs@[j],
                    );
                }
            }
        }
        k += 1;
    }
    proof {
        assert(dir_done(tiles@, w as int, h as int, rewards@, cx as int, cy as int, Direction::North))
            by {
            let j = choose|j: int| 0 <= j < dirs@.len() && dirs@[j] == Direction::North;
            assert(dir_done(tiles@, w as int, h as int, rewards@, cx as int, cy as int, dirs@[j]));
        }
        assert(dir_done(tiles@, w as int, h as int, rewards@, cx as int, cy as int, Direction::East))
            by {
            let j = choose|j: int| 0 <= j < dirs@.len() && dirs@[j] == Direction::East;
            assert(dir_done(tiles@, w as int, h as int, rewards@, cx as int, cy as int, dirs@[j]));
        }
        assert(dir_done(tiles@, w as int, h as int, rewards@, cx as int, cy as int, Direction::South))
            by {
            let j = choose|j: int| 0 <= j < dirs@.len() && dirs@[j] == Direction::South;
            assert(dir_done(tiles@, w as int, h as int, rewards@, cx as int, cy as int, dirs@[j]));
        }
        assert(dir_done(tiles@, w as int, h as int, rewards@, cx as int, cy as int, Direction::West))
            by {
            let j = choose|j: int| 0 <= j < dirs@.len() && dirs@[j] == Direction::West;
            assert(dir_done(tiles@, w as int, h as int, rewards@, cx as int, cy as int, dirs@[j]));
        }
        lemma_dirs_done_nb_ok(tiles@, w as int, h as int, rewards@, cx as int, cy as int);
        lemma_pop_except(tiles@, w as int, h as int, rewards@, stack@, cx as int, cy as int);
    }
    tiles
}


/// A count over cells none of which satisfies the predicate is zero.
proof fn lemma_count_cells_zero(g: Seq<Tile>, f: spec_fn(int, Tile) -> bool, n: int)
    requires
        n <= g.len(),
        forall|i: int| 0 <= i < n ==> !(#[trigger] f(i, g[i])),
    ensures
        count_cells(g, f, n) == 0,
    decreases n,
{
    if n > 0 {
        lemma_count_cells_zero(g, f, n - 1);
    }
}

/// No reward list at all is well placed.
proof fn lemma_rewards_wf_empty(w: int, h: int)
    ensures
        rewards_wf(Seq::<Reward>::empty(), w, h),
{
    reveal(crate::model::rewards_wf);
}

/// Appending a reward on a fresh interior lattice vertex away from the
/// entry keeps the list well placed.
proof fn lemma_rewards_wf_push(rs: Seq<Reward>, w: int, h: int, r: Reward)
    requires
        rewards_wf(rs, w, h),
        is_lat(r.pos.x as int, r.pos.y as int),
        in_rect(w, h, r.pos.x as int, r.pos.y as int),
        !(r.pos.x == 1 && r.pos.y == 1),
        !has_reward(rs, r.pos.x as int, r.pos.y as int),
    ensures
        rewards_wf(rs.push(r), w, h),
{
    reveal(crate::model::rewards_wf);
    let rs2 = rs.push(r);
    assert forall|i: int, j: int|
        0 <= i < j < rs2.len() implies !((#[trigger] rs2[i]).pos.x == (#[trigger] rs2[j]).pos.x
        && rs2[i].pos.y == rs2[j].pos.y) by {
        if j == rs.len() {
            assert(rs2[i] == rs[i]);
            if rs[i].pos.x == r.pos.x && rs[i].pos.y == r.pos.y {
                assert(has_reward(rs, r.pos.x as int, r.pos.y as int));
            }
        } else {
            assert(rs2[i] == rs[i] && rs2[j] == rs[j]);
        }
    }
}

/// Carving the entry into an all-walls grid yields the starting state of
/// the backtracker: one carved vertex, no carved connector, everything
/// connected to the entry, and nothing to explore but the entry itself.
#[verifier::rlimit(30)]
#[verifier::spinoff_prover]
proof fn lemma_initial_state(g0: Seq<Tile>, w: int, h: int, rs: Seq<Reward>)
    requires
        dims_ok(w, h),
        g0.len() == w * h,
        forall|i: int| 0 <= i < g0.len() ==> !((#[trigger] g0[i]) is Ground),
        rewards_wf(rs, w, h),
    ensures
        ({
            let g1 = g0.update(idx(w, entry_x(), entry_y()), Tile::Ground);
            &&& carve_inv(g1, w, h, rs)
            &&& ground(g1, w, entry_x(), entry_y())
            &&& explored_except(g1, w, h, rs, Set::<(int, int)>::empty().insert((entry_x(), entry_y())))
        }),
{
    let i_e = idx(w, entry_x(), entry_y());
    let g1 = g0.update(i_e, Tile::Ground);
    lemma_idx_bounds(w, h, entry_x(), entry_y());
    lemma_idx_coords(w, h, entry_x(), entry_y());
    // The entry is the only carved cell.
    assert forall|x: int, y: int| in_rect(w, h, x, y) implies (#[trigger] ground(g1, w, x, y)
        <==> (x == entry_x() && y == entry_y())) by {
        lemma_idx_bounds(w, h, x, y);
        if idx(w, x, y) == i_e {
            lemma_idx_injective(w, x, y, entry_x(), entry_y());
        }
    }
    assert(ground(g1, w, entry_x(), entry_y()));
    assert(carved_ok(g1, w, h)) by {
        reveal(crate::model::carved_ok);
    }
    assert(edges_sound(g1, w, h)) by {
        reveal(crate::model::edges_sound);
    }
    assert(all_connected(g1, w, h)) by {
        reveal(crate::model::all_connected);
        lemma_reaches_entry(g1, w, h);
    }
    assert(tree_count(g1, w)) by {
        lemma_count_cells_zero(g0, lat_ground_pred(w), g0.len() as int);
        lemma_count_cells_zero(g0, conn_ground_pred(w), g0.len() as int);
        lemma_count_cells_update(g0, lat_ground_pred(w), g0.len() as int, i_e, Tile::Ground);
        lemma_count_cells_update(g0, conn_ground_pred(w), g0.len() as int, i_e, Tile::Ground);
        assert(lat_ground_pred(w)(i_e, Tile::Ground));
        assert(!(conn_ground_pred(w)(i_e, Tile::Ground)));
    }
    assert(rewards_dead_ends(g1, w, rs)) by {
        reveal(crate::model::rewards_wf);
        reveal(crate::model::rewards_dead_ends);
        assert forall|i: int| 0 <= i < rs.len() implies open_sides(
            g1,
            w,
            (#[trigger] rs[i]).pos.x as int,
            rs[i].pos.y as int,
        ) <= 1 by {
            let rx = rs[i].pos.x as int;
            let ry = rs[i].pos.y as int;
            assert(is_lat(rx, ry) && in_rect(w, h, rx, ry));
            assert(1 <= rx <= w - 2 && 1 <= ry <= h - 2);
            assert(!ground(g1, w, rx, ry - 1));
            assert(!ground(g1, w, rx + 1, ry));
            assert(!ground(g1, w, rx, ry + 1));
            assert(!ground(g1, w, rx - 1, ry));
        }
        assert forall|i: int| 0 <= i < rs.len() implies !ground(
            g1,
            w,
            (#[trigger] rs[i]).pos.x as int,
            rs[i].pos.y as int - 1,
        ) by {
            let rx = rs[i].pos.x as int;
            let ry = rs[i].pos.y as int;
            assert(is_lat(rx, ry) && in_rect(w, h, rx, ry));
            assert(1 <= rx <= w - 2 && 1 <= ry <= h - 2);
        }
    }
    assert(explored_except(
        g1,
        w,
        h,
        rs,
        Set::<(int, int)>::empty().insert((entry_x(), entry_y())),
    )) by {
        reveal(crate::model::explored_except);
    }
}

/// Attempts per reward before generation reports a configuration error.
pub const PLACEMENT_ATTEMPTS: usize = 64;

/// Draws a lattice vertex for a new reward: both coordinates odd and
/// inside the grid, away from the entry and from every reward already
/// placed. Gives up after a bounded number of draws.
fn sample_reward_pos(
    w: usize,
    h: usize,
    rng: &mut rand::rngs::StdRng,
    placed: &Vec<Reward>,
) -> (res: Option<CellIndex>)
    requires
        dims_ok(w as int, h as int),
    ensures
        match res {
            Some(p) => {
                &&& is_lat(p.x as int, p.y as int)
                &&& in_rect(w as int, h as int, p.x as int, p.y as int)
                &&& !(p.x == 1 && p.y == 1)
                &&& !has_reward(placed@, p.x as int, p.y as int)
            },
            None => true,
        },
{
    let mut attempt: usize = 0;
    while attempt < PLACEMENT_ATTEMPTS
        invariant
            dims_ok(w as int, h as int),
        decreases PLACEMENT_ATTEMPTS - attempt,
    {
        let kx = crate::randsrc::rand_below(rng, w / 2);
        let ky = crate::randsrc::rand_below(rng, h / 2);
        let x = 2 * kx + 1;
        let y = 2 * ky + 1;
        if !(x == 1 && y == 1) && !reward_at(placed, x, y) {
            return Some(CellIndex { x, y });
        }
        attempt += 1;
    }
    None
}

/// Places `reward_count` rewards on distinct lattice vertices away from
/// the entry; the first half are bonuses, the remainder penalties. Fails
/// with a configuration error when a vertex cannot be found within the
/// sampling budget, placing nothing.
fn place_rewards(
    w: usize,
    h: usize,
    rng: &mut rand::rngs::StdRng,
    reward_count: usize,
) -> (res: Result<Vec<Reward>, MazeError>)
    requires
        dims_ok(w as int, h as int),
    ensures
        match res {
            Ok(rs) => {
                &&& rs@.len() == reward_count
                &&& rewards_wf(rs@, w as int, h as int)
                &&& forall|i: int| 0 <= i < rs@.len() ==> !(#[trigger] rs@[i]).found
                &&& forall|i: int|
                    0 <= i < rs@.len() ==> ((#[trigger] rs@[i]).malus <==> i >= reward_count
                        - reward_count / 2)
            },
            Err(e) => e == MazeError::ConfigurationError,
        },
        reward_count == 0 ==> res is Ok,
{
    proof {
        lemma_rewards_wf_empty(w as int, h as int);
    }
    let bonus_count = reward_count - reward_count / 2;
    let mut placed: Vec<Reward> = Vec::new();
    let mut i: usize = 0;
    while i < reward_count
        invariant
            i <= reward_count,
            placed@.len() == i,
            rewards_wf(placed@, w as int, h as int),
            dims_ok(w as int, h as int),
            bonus_count == reward_count - reward_count / 2,
            forall|j: int| 0 <= j < i ==> !(#[trigger] placed@[j]).found,
            forall|j: int|
                0 <= j < i ==> ((#[trigger] placed@[j]).malus <==> j >= reward_count
                    - reward_count / 2),
        decreases reward_count - i,
    {
        let pos = match sample_reward_pos(w, h, rng, &placed) {
            Some(p) => p,
            None => {
                return Err(MazeError::ConfigurationError);
            },
        };
        let malus = i >= bonus_count;
        let r = Reward::new(pos, malus);
        proof {
            lemma_rewards_wf_push(placed@, w as int, h as int, r);
        }
        placed.push(r);
        i += 1;
    }
    Ok(placed)
}

impl Maze {
    /// A maze as `generate` leaves it: the carving invariant (every carved
    /// cell is a lattice vertex or an interior connector joining two carved
    /// vertices, all of it reachable from the entry, with exactly one
    /// connector less than vertices), well-placed dead-end rewards with the
    /// first half bonuses, a carved entry, full exploredness, and every
    /// wall cell carrying its connector texture.
    pub open spec fn generated(&self, reward_count: int) -> bool {
        &&& self.wf()
        &&& dims_ok(self.spec_width(), self.spec_height())
        &&& carve_inv(
            self.spec_tiles(),
            self.spec_width(),
            self.spec_height(),
            self.spec_rewards(),
        )
        &&& rewards_wf(self.spec_rewards(), self.spec_width(), self.spec_height())
        &&& explored_except(
            self.spec_tiles(),
            self.spec_width(),
            self.spec_height(),
            self.spec_rewards(),
            Set::<(int, int)>::empty(),
        )
        &&& ground(self.spec_tiles(), self.spec_width(), entry_x(), entry_y())
        &&& self.spec_rewards().len() == reward_count
        &&& forall|i: int|
            0 <= i < self.spec_rewards().len() ==> !(#[trigger] self.spec_rewards()[i]).found
        &&& forall|i: int|
            0 <= i < self.spec_rewards().len() ==> ((#[trigger] self.spec_rewards()[i]).malus
                <==> i >= reward_count - reward_count / 2)
        &&& textured(self.spec_tiles(), self.spec_width(), self.spec_height())
    }

    /// Generates the maze in place on a fresh all-walls grid: places
    /// `reward_count` rewards, carves passages by recursive backtracking
    /// from the entry `(1, 1)`, and classifies every remaining wall. On a
    /// configuration error (the rewards did not fit within the sampling
    /// budget) the maze is left untouched.
    pub fn generate(&mut self, rng: &mut rand::rngs::StdRng, reward_count: usize) -> (res: Result<
        (),
        MazeError,
    >)
        requires
            old(self).wf(),
            dims_ok(old(self).spec_width(), old(self).spec_height()),
            forall|i: int|
                0 <= i < old(self).spec_tiles().len() ==> !((#[trigger] old(self).spec_tiles()[i])
                    is Ground),
            old(self).spec_rewards().len() == 0,
        ensures
            final(self).dim == old(self).dim,
            match res {
                Ok(()) => final(self).generated(reward_count as int),
                Err(e) => e == MazeError::ConfigurationError && *final(self) == *old(self),
            },
            reward_count == 0 ==> res is Ok,
    {
        let w = self.dim.0;
        let h = self.dim.1;
        let rewards_list = match place_rewards(w, h, rng, reward_count) {
            Ok(rs) => rs,
            Err(e) => {
                return Err(e);
            },
        };
        self.rewards = rewards_list;
        let ghost g0 = self.tiles@;
        proof {
            assert(g0 == old(self).spec_tiles());
            assert forall|i: int| 0 <= i < g0.len() implies !((#[trigger] g0[i]) is Ground) by {
                assert(!(old(self).spec_tiles()[i] is Ground));
            }
            lemma_idx_bounds(w as int, h as int, entry_x(), entry_y());
            lemma_initial_state(g0, w as int, h as int, self.rewards@);
        }
        self.tiles[1 * w + 1] = Tile::Ground;
        let mut carved: Vec<Tile> = Vec::new();
        core::mem::swap(&mut carved, &mut self.tiles);
        let carved = carve_from(
            w,
            h,
            carved,
            &self.rewards,
            1,
            1,
            rng,
            Ghost(Set::<(int, int)>::empty()),
        );
        self.tiles = carved;
        let ghost g_carved = self.tiles@;
        self.set_textures();
        proof {
            lemma_same_ground_inv(
                g_carved,
                self.tiles@,
                w as int,
                h as int,
                self.rewards@,
            );
            assert(ground(g_carved, w as int, entry_x(), entry_y()));
            lemma_same_ground_mono(g_carved, self.tiles@, w as int, h as int);
            lemma_mono_point(g_carved, self.tiles@, w as int, h as int, entry_x(), entry_y());
        }
        Ok(())
    }
}

} // verus!
