//! The wall-connector classification pass.
//!
//! After carving, every wall cell is assigned the connector texture that
//! matches which of its four neighbors (south, east, north, west) are
//! walls; cells outside the grid count as absent. An isolated wall keeps
//! no texture. The pass only rewrites wall payloads: which cells are
//! ground never changes.

use vstd::prelude::*;

use crate::maze::Maze;
use crate::model::{
    ground, idx, in_rect, lemma_idx_bounds, lemma_idx_coords, lemma_idx_injective, same_ground,
};
use crate::tile::{classify, spec_classify, Tile};

verus! {

/// The neighbor test of the classification pass: `(x, y)` lies inside the
/// grid and holds a wall.
pub open spec fn wall_at(g: Seq<Tile>, w: int, h: int, x: int, y: int) -> bool {
    in_rect(w, h, x, y) && !(g[idx(w, x, y)] is Ground)
}

/// What the cell at `(x, y)` looks like after classification: ground stays
/// ground, and a wall carries the connector tag of its neighborhood, read
/// in (south, east, north, west) order.
pub open spec fn classify_at(g: Seq<Tile>, w: int, h: int, x: int, y: int) -> Tile {
    if g[idx(w, x, y)] is Ground {
        Tile::Ground
    } else {
        Tile::Wall(
            spec_classify(
                wall_at(g, w, h, x, y + 1),
                wall_at(g, w, h, x + 1, y),
                wall_at(g, w, h, x, y - 1),
                wall_at(g, w, h, x - 1, y),
            ),
        )
    }
}

/// The whole grid is classified: every cell agrees with the connector tag
/// its own neighborhood dictates.
#[verifier::opaque]
pub open spec fn textured(g: Seq<Tile>, w: int, h: int) -> bool {
    forall|x: int, y: int|
        in_rect(w, h, x, y) ==> #[trigger] g[idx(w, x, y)] == classify_at(g, w, h, x, y)
}

/// Classification only looks at which cells are ground, so two grids
/// carved alike classify alike.
pub proof fn lemma_classify_congruence(
    g1: Seq<Tile>,
    g2: Seq<Tile>,
    w: int,
    h: int,
    x: int,
    y: int,
)
    requires
        same_ground(g1, g2, w, h),
        in_rect(w, h, x, y),
    ensures
        classify_at(g1, w, h, x, y) == classify_at(g2, w, h, x, y),
{
    reveal(same_ground);
    assert(ground(g1, w, x, y) <==> ground(g2, w, x, y));
    if in_rect(w, h, x, y + 1) {
        assert(ground(g1, w, x, y + 1) <==> ground(g2, w, x, y + 1));
    }
    if in_rect(w, h, x + 1, y) {
        assert(ground(g1, w, x + 1, y) <==> ground(g2, w, x + 1, y));
    }
    if in_rect(w, h, x, y - 1) {
        assert(ground(g1, w, x, y - 1) <==> ground(g2, w, x, y - 1));
    }
    if in_rect(w, h, x - 1, y) {
        assert(ground(g1, w, x - 1, y) <==> ground(g2, w, x - 1, y));
    }
    assert(wall_at(g1, w, h, x, y + 1) == wall_at(g2, w, h, x, y + 1));
    assert(wall_at(g1, w, h, x + 1, y) == wall_at(g2, w, h, x + 1, y));
    assert(wall_at(g1, w, h, x, y - 1) == wall_at(g2, w, h, x, y - 1));
    assert(wall_at(g1, w, h, x - 1, y) == wall_at(g2, w, h, x - 1, y));
}

impl Maze {
    /// Reads whether the cell one step in `(dx, dy)` from `(x, y)` is a
    /// wall, treating cells outside the grid as absent.
    fn wall_neighbor(&self, x: usize, y: usize, dx: i8, dy: i8) -> (b: bool)
        requires
            self.wf(),
            in_rect(self.spec_width(), self.spec_height(), x as int, y as int),
            -1 <= dx as int <= 1,
            -1 <= dy as int <= 1,
        ensures
            b == wall_at(
                self.spec_tiles(),
                self.spec_width(),
                self.spec_height(),
                x as int + dx as int,
                y as int + dy as int,
            ),
    {
        let w = self.dim.0;
        let h = self.dim.1;
        let nx: usize = if dx < 0 {
            if x == 0 {
                return false;
            }
            x - 1
        } else if dx > 0 {
            if x + 1 >= w {
                return false;
            }
            x + 1
        } else {
            x
        };
        let ny: usize = if dy < 0 {
            if y == 0 {
                return false;
            }
            y - 1
        } else if dy > 0 {
            if y + 1 >= h {
                return false;
            }
            y + 1
        } else {
            y
        };
        proof {
            lemma_idx_bounds(self.spec_width(), self.spec_height(), nx as int, ny as int);
        }
        !matches!(self.tiles[ny * w + nx], Tile::Ground)
    }

    /// The classification pass: assigns every wall cell the connector
    /// texture of its four-neighbor wall pattern and leaves ground cells
    /// alone, so the carved shape of the maze is untouched.
    #[verifier::rlimit(60)]
    #[verifier::spinoff_prover]
    #[verifier::loop_isolation(false)]
    pub fn set_textures(&mut self)
        requires
            old(self).wf(),
        ensures
            final(self).wf(),
            final(self).dim == old(self).dim,
            final(self).spec_rewards() == old(self).spec_rewards(),
            same_ground(
                old(self).spec_tiles(),
                final(self).spec_tiles(),
                old(self).spec_width(),
                old(self).spec_height(),
            ),
            textured(
                final(self).spec_tiles(),
                final(self).spec_width(),
                final(self).spec_height(),
            ),
    {
        let w = self.dim.0;
        let h = self.dim.1;
        let n = self.tiles.len();
        let ghost orig = self.tiles@;
        let ghost wi = self.spec_width();
        let ghost hi = self.spec_height();
        proof {
            reveal(same_ground);
        }
        let mut i: usize = 0;
        while i < n
            invariant
                i <= n,
                self.dim == old(self).dim,
                self.rewards@ == old(self).rewards@,
                self.tiles@.len() == n,
                same_ground(orig, self.tiles@, wi, hi),
                forall|j: int|
                    i <= j < n ==> self.tiles@[j] == orig[j],
                forall|j: int|
                    0 <= j < i ==> self.tiles@[j] == classify_at(orig, wi, hi, j % wi, j / wi),
            decreases n - i,
        {
            proof {
                assert(wi >= 1 && hi >= 1) by (nonlinear_arith)
                    requires
                        (i as int) < wi * hi,
                        wi >= 0,
                        hi >= 0,
                ;
            }
            let x = i % w;
            let y = i / w;
            proof {
                assert(0 <= x < wi && 0 <= y < hi) by (nonlinear_arith)
                    requires
                        wi >= 1,
                        hi >= 1,
                        0 <= i < wi * hi,
                        x == i as int % wi,
                        y == i as int / wi,
                        wi == w,
                        hi == h,
                        n == wi * hi,
                ;
                assert(idx(wi, x as int, y as int) == i) by (nonlinear_arith)
                    requires
                        wi >= 1,
                        0 <= i,
                        x == i as int % wi,
                        y == i as int / wi,
                        wi == w,
                ;
            }
            let here = self.tiles[i];
            if !matches!(here, Tile::Ground) {
                let s = self.wall_neighbor(x, y, 0, 1);
                let e = self.wall_neighbor(x, y, 1, 0);
                let nn = self.wall_neighbor(x, y, 0, -1);
                let ww = self.wall_neighbor(x, y, -1, 0);
                let tag = classify(s, e, nn, ww);
                proof {
                    // The neighborhood read from the half-rewritten grid
                    // matches the untouched one: payload rewrites keep
                    // walls walls.
                    reveal(same_ground);
                    if in_rect(wi, hi, x as int, y as int + 1) {
                        assert(ground(orig, wi, x as int, y as int + 1) <==> ground(
                            self.tiles@,
                            wi,
                            x as int,
                            y as int + 1,
                        ));
                    }
                    if in_rect(wi, hi, x as int + 1, y as int) {
                        assert(ground(orig, wi, x as int + 1, y as int) <==> ground(
                            self.tiles@,
                            wi,
                            x as int + 1,
                            y as int,
                        ));
                    }
                    if in_rect(wi, hi, x as int, y as int - 1) {
                        assert(ground(orig, wi, x as int, y as int - 1) <==> ground(
                            self.tiles@,
                            wi,
                            x as int,
                            y as int - 1,
                        ));
                    }
                    if in_rect(wi, hi, x as int - 1, y as int) {
                        assert(ground(orig, wi, x as int - 1, y as int) <==> ground(
                            self.tiles@,
                            wi,
                            x as int - 1,
                            y as int,
                        ));
                    }
                    assert(wall_at(self.tiles@, wi, hi, x as int, y as int + 1) == wall_at(
                        orig,
                        wi,
                        hi,
                        x as int,
                        y as int + 1,
                    ));
                    assert(wall_at(self.tiles@, wi, hi, x as int + 1, y as int) == wall_at(
                        orig,
                        wi,
                        hi,
                        x as int + 1,
                        y as int,
                    ));
                    assert(wall_at(self.tiles@, wi, hi, x as int, y as int - 1) == wall_at(
                        orig,
                        wi,
                        hi,
                        x as int,
                        y as int - 1,
                    ));
                    assert(wall_at(self.tiles@, wi, hi, x as int - 1, y as int) == wall_at(
                        orig,
                        wi,
                        hi,
                        x as int - 1,
                        y as int,
                    ));
                }
                self.tiles[i] = Tile::Wall(tag);
            }
            proof {
                assert(self.tiles@[i as int] == classify_at(orig, wi, hi, x as int, y as int));
                assert forall|x2: int, y2: int|
                    #![trigger ground(orig, wi, x2, y2)]
                    #![trigger ground(self.tiles@, wi, x2, y2)]
                    in_rect(wi, hi, x2, y2) implies (ground(orig, wi, x2, y2) <==> ground(
                    self.tiles@,
                    wi,
                    x2,
                    y2,
                )) by {
                    lemma_idx_bounds(wi, hi, x2, y2);
                    if idx(wi, x2, y2) == i {
                        lemma_idx_injective(wi, x2, y2, x as int, y as int);
                    }
                }
            }
            i += 1;
        }
        proof {
            reveal(textured);
            assert forall|x2: int, y2: int| in_rect(wi, hi, x2, y2) implies #[trigger] self.tiles@[idx(
                wi,
                x2,
                y2,
            )] == classify_at(self.tiles@, wi, hi, x2, y2) by {
                lemma_idx_bounds(wi, hi, x2, y2);
                lemma_idx_coords(wi, hi, x2, y2);
                assert(self.tiles@[idx(wi, x2, y2)] == classify_at(orig, wi, hi, x2, y2));
                lemma_classify_congruence(orig, self.tiles@, wi, hi, x2, y2);
            }
        }
    }
}

} // verus!
