//! The guarantees a generated maze gives, stated as proof functions over
//! `Maze::generated`, the postcondition of `Maze::generate`.

use vstd::prelude::*;

use crate::classify::{classify_at, textured};
use crate::maze::{has_reward, Maze};
use crate::model::{
    all_connected, carved_ok, conn_ground_pred, count_cells, entry_x, entry_y, exit_x, exit_y,
    explored_except, ground, idx, in_rect, is_lat, lat_ground_pred, nb_ok, open_sides, reaches,
    rewards_dead_ends, rewards_wf,
};
use crate::rewards::{spec_found, Reward};
use crate::tile::{spec_classify, Tile};

verus! {

/// A walk over the carving lattice: consecutive vertices two cells apart,
/// all inside the grid.
pub open spec fn lattice_walk(w: int, h: int, p: Seq<(int, int)>) -> bool {
    &&& p.len() >= 1
    &&& forall|i: int|
        0 <= i < p.len() ==> is_lat((#[trigger] p[i]).0, p[i].1) && in_rect(w, h, p[i].0, p[i].1)
    &&& forall|i: int|
        0 <= i < p.len() - 1 ==> (((#[trigger] p[i]).0 == p[i + 1].0 && (p[i].1 == p[i + 1].1 - 2
            || p[i].1 == p[i + 1].1 + 2)) || (p[i].1 == p[i + 1].1 && (p[i].0 == p[i + 1].0 - 2
            || p[i].0 == p[i + 1].0 + 2)))
}

/// Every vertex of a reward-free lattice walk out of the entry that only
/// meets the exit at its end is carved: the backtracker explored it.
proof fn lemma_walk_carved(
    g: Seq<Tile>,
    w: int,
    h: int,
    rs: Seq<Reward>,
    p: Seq<(int, int)>,
    k: int,
)
    requires
        explored_except(g, w, h, rs, Set::<(int, int)>::empty()),
        ground(g, w, entry_x(), entry_y()),
        lattice_walk(w, h, p),
        p.first() == (entry_x(), entry_y()),
        forall|i: int| 0 <= i < p.len() ==> !has_reward(rs, (#[trigger] p[i]).0, p[i].1),
        forall|i: int|
            0 <= i < p.len() - 1 ==> !((#[trigger] p[i]).0 == exit_x(w) && p[i].1 == exit_y(h)),
        0 <= k < p.len(),
    ensures
        ground(g, w, p[k].0, p[k].1),
    decreases k,
{
    if k == 0 {
        assert(p[0] == (entry_x(), entry_y()));
    } else {
        lemma_walk_carved(g, w, h, rs, p, k - 1);
        let (vx, vy) = p[k - 1];
        assert(is_lat(vx, vy) && in_rect(w, h, vx, vy));
        assert(nb_ok(g, w, h, rs, vx, vy)) by {
            reveal(explored_except);
            assert(!has_reward(rs, vx, vy));
            assert(!(vx == exit_x(w) && vy == exit_y(h)));
            assert(!Set::<(int, int)>::empty().contains((vx, vy)));
        }
        let (nx, ny) = p[k];
        assert(in_rect(w, h, nx, ny));
        assert(!has_reward(rs, nx, ny));
        if nx == vx && ny == vy - 2 {
            assert(ground(g, w, nx, ny));
        } else if nx == vx + 2 && ny == vy {
            assert(ground(g, w, nx, ny));
        } else if nx == vx - 2 && ny == vy {
            assert(ground(g, w, nx, ny));
        } else {
            assert(nx == vx && ny == vy + 2);
            assert(ground(g, w, nx, ny));
        }
    }
}

/// Connectivity: in a generated maze, a flood fill from the entry cell
/// reaches the designated exit through ground cells, provided some lattice
/// walk from entry to exit avoids every reward (rewards are dead ends, so
/// an exit walled in by rewards on all its approaches stays unreachable).
pub proof fn lemma_connectivity(m: &Maze, reward_count: int, p: Seq<(int, int)>)
    requires
        m.generated(reward_count),
        lattice_walk(m.spec_width(), m.spec_height(), p),
        p.first() == (entry_x(), entry_y()),
        p.last() == (exit_x(m.spec_width()), exit_y(m.spec_height())),
        forall|i: int|
            0 <= i < p.len() ==> !has_reward(m.spec_rewards(), (#[trigger] p[i]).0, p[i].1),
        forall|i: int|
            0 <= i < p.len() - 1 ==> !((#[trigger] p[i]).0 == exit_x(m.spec_width()) && p[i].1
                == exit_y(m.spec_height())),
    ensures
        ground(m.spec_tiles(), m.spec_width(), exit_x(m.spec_width()), exit_y(m.spec_height())),
        reaches(
            m.spec_tiles(),
            m.spec_width(),
            m.spec_height(),
            exit_x(m.spec_width()),
            exit_y(m.spec_height()),
        ),
{
    let w = m.spec_width();
    let h = m.spec_height();
    lemma_walk_carved(
        m.spec_tiles(),
        w,
        h,
        m.spec_rewards(),
        p,
        p.len() - 1,
    );
    assert(p[p.len() - 1] == (exit_x(w), exit_y(h)));
    assert(ground(m.spec_tiles(), w, exit_x(w), exit_y(h)));
    assert(reaches(m.spec_tiles(), w, h, exit_x(w), exit_y(h))) by {
        reveal(all_connected);
        assert(in_rect(w, h, exit_x(w), exit_y(h)));
    }
}

/// Perfectness: the carved lattice graph of a generated maze is a spanning
/// tree of its carved vertices. Every carved cell is reachable from the
/// entry by a flood fill, and the carved connectors (the edges) number
/// exactly one less than the carved lattice vertices.
pub proof fn lemma_perfectness(m: &Maze, reward_count: int)
    requires
        m.generated(reward_count),
    ensures
        count_cells(m.spec_tiles(), lat_ground_pred(m.spec_width()), m.spec_tiles().len() as int)
            == count_cells(
            m.spec_tiles(),
            conn_ground_pred(m.spec_width()),
            m.spec_tiles().len() as int,
        ) + 1,
        forall|x: int, y: int|
            in_rect(m.spec_width(), m.spec_height(), x, y) && #[trigger] ground(
                m.spec_tiles(),
                m.spec_width(),
                x,
                y,
            ) ==> reaches(m.spec_tiles(), m.spec_width(), m.spec_height(), x, y),
{
    reveal(all_connected);
}

/// Border invariant: every cell of the outer ring of a generated maze is
/// still a wall; carving never touches it.
pub proof fn lemma_border_walls(m: &Maze, reward_count: int)
    requires
        m.generated(reward_count),
    ensures
        forall|x: int, y: int|
            in_rect(m.spec_width(), m.spec_height(), x, y) && (x == 0 || x == m.spec_width() - 1
                || y == 0 || y == m.spec_height() - 1) ==> !ground(
                m.spec_tiles(),
                m.spec_width(),
                x,
                y,
            ),
{
    let w = m.spec_width();
    let h = m.spec_height();
    assert forall|x: int, y: int|
        in_rect(w, h, x, y) && (x == 0 || x == w - 1 || y == 0 || y == h - 1) implies !ground(
        m.spec_tiles(),
        w,
        x,
        y,
    ) by {
        reveal(carved_ok);
        if ground(m.spec_tiles(), w, x, y) {
            assert(is_lat(x, y) || (1 <= x <= w - 2 && 1 <= y <= h - 2));
        }
    }
}

/// Reward placement: in a generated maze every reward sits on an odd/odd
/// cell strictly inside the border ring, none sits on the entry, and no
/// two share a cell.
pub proof fn lemma_reward_placement(m: &Maze, reward_count: int)
    requires
        m.generated(reward_count),
    ensures
        forall|i: int|
            0 <= i < m.spec_rewards().len() ==> {
                let p = (#[trigger] m.spec_rewards()[i]).pos;
                &&& p.x as int % 2 == 1
                &&& p.y as int % 2 == 1
                &&& 1 <= p.x as int <= m.spec_width() - 2
                &&& 1 <= p.y as int <= m.spec_height() - 2
                &&& !(p.x == 1 && p.y == 1)
            },
        forall|i: int, j: int|
            0 <= i < j < m.spec_rewards().len() ==> !((#[trigger] m.spec_rewards()[i]).pos.x == (
            #[trigger] m.spec_rewards()[j]).pos.x && m.spec_rewards()[i].pos.y
                == m.spec_rewards()[j].pos.y),
{
    reveal(rewards_wf);
}

/// Reward dead-end rule: in a generated maze at most one passage touches
/// any reward cell, so no reward is ever a through route; and that one
/// passage is never the cell above the reward, which is only approached
/// from the sides or from below.
pub proof fn lemma_reward_dead_end(m: &Maze, reward_count: int)
    requires
        m.generated(reward_count),
    ensures
        forall|i: int|
            0 <= i < m.spec_rewards().len() ==> open_sides(
                m.spec_tiles(),
                m.spec_width(),
                (#[trigger] m.spec_rewards()[i]).pos.x as int,
                m.spec_rewards()[i].pos.y as int,
            ) <= 1,
        forall|i: int|
            0 <= i < m.spec_rewards().len() ==> !ground(
                m.spec_tiles(),
                m.spec_width(),
                (#[trigger] m.spec_rewards()[i]).pos.x as int,
                m.spec_rewards()[i].pos.y as int - 1,
            ),
{
    reveal(rewards_dead_ends);
}

/// Classifier exhaustiveness: every neighbor pattern with at least one
/// wall present maps to a texture, and the all-absent pattern to none.
pub proof fn lemma_classifier_exhaustive()
    ensures
        forall|s: bool, e: bool, n: bool, w: bool|
            (s || e || n || w) <==> #[trigger] spec_classify(s, e, n, w) is Some,
{
}

/// Every wall cell of a generated maze carries exactly the texture its
/// neighborhood dictates: a texture whenever a neighbor is a wall, none
/// for an isolated wall.
pub proof fn lemma_walls_textured(m: &Maze, reward_count: int, x: int, y: int)
    requires
        m.generated(reward_count),
        in_rect(m.spec_width(), m.spec_height(), x, y),
    ensures
        m.spec_tiles()[idx(m.spec_width(), x, y)] == classify_at(
            m.spec_tiles(),
            m.spec_width(),
            m.spec_height(),
            x,
            y,
        ),
{
    reveal(textured);
}

/// Idempotent discovery: marking a reward found a second time changes
/// nothing; the flag is already set and nothing else ever changes.
pub proof fn lemma_discovery_idempotent(r: Reward)
    ensures
        spec_found(spec_found(r)) == spec_found(r),
        spec_found(r).found,
        spec_found(r).pos == r.pos,
        spec_found(r).malus == r.malus,
{
}

} // verus!
