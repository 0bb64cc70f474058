//! The maze aggregate: grid storage, bounds-checked access, and the reward
//! query surface. Generation and classification live in their own modules
//! and operate on this type.

use vstd::prelude::*;

use crate::model::{idx, in_rect, lemma_idx_bounds};
use crate::rewards::Reward;
use crate::tile::Tile;

verus! {

/// Grid coordinates of one cell, `x` to the right, `y` downward.
#[derive(Debug, Clone, Copy, PartialEq, Eq, Structural)]
pub struct CellIndex {
    pub x: usize,
    pub y: usize,
}

impl CellIndex {
    /// The cell at `(x, y)`.
    pub fn new(x: usize, y: usize) -> (c: CellIndex)
        ensures
            c.x == x && c.y == y,
    {
        CellIndex { x, y }
    }
}

/// The four cardinal unit steps of the carving scheme.
#[derive(Debug, Clone, Copy, PartialEq, Eq, Structural)]
pub enum Direction {
    North,
    East,
    South,
    West,
}

impl Direction {
    /// Horizontal component of the unit step.
    pub open spec fn spec_dx(self) -> int {
        match self {
            Direction::North => 0,
            Direction::East => 1,
            Direction::South => 0,
            Direction::West => -1,
        }
    }

    /// Vertical component of the unit step; `y` grows downward.
    pub open spec fn spec_dy(self) -> int {
        match self {
            Direction::North => -1,
            Direction::East => 0,
            Direction::South => 1,
            Direction::West => 0,
        }
    }

    /// The unit offset vector of this direction, `(dx, dy)`.
    pub fn as_relative(self) -> (v: (isize, isize))
        ensures
            v.0 == self.spec_dx(),
            v.1 == self.spec_dy(),
    {
        match self {
            Direction::North => (0, -1),
            Direction::East => (1, 0),
            Direction::South => (0, 1),
            Direction::West => (-1, 0),
        }
    }
}

/// The recoverable failures of this library.
#[derive(Debug, Clone, Copy, PartialEq, Eq, Structural)]
pub enum MazeError {
    /// A coordinate lay outside `[0, width) x [0, height)`.
    OutOfBounds,
    /// The requested reward count could not be placed within the sampling
    /// budget; the grid is too small for it.
    ConfigurationError,
}

/// A maze: its dimensions, the row-major tile grid, and the rewards placed
/// on it.
#[derive(Debug)]
pub struct Maze {
    /// (width, height)
    pub dim: (usize, usize),
    pub tiles: Vec<Tile>,
    pub rewards: Vec<Reward>,
}

/// There is a reward at `(x, y)` in the list `rs`.
pub open spec fn has_reward(rs: Seq<Reward>, x: int, y: int) -> bool {
    exists|i: int| 0 <= i < rs.len() && rs[i].pos.x == x && rs[i].pos.y == y
}

impl Maze {
    /// Width of the grid in cells.
    pub open spec fn spec_width(&self) -> int {
        self.dim.0 as int
    }

    /// Height of the grid in cells.
    pub open spec fn spec_height(&self) -> int {
        self.dim.1 as int
    }

    /// The tile grid, row-major.
    pub open spec fn spec_tiles(&self) -> Seq<Tile> {
        self.tiles@
    }

    /// The rewards, in placement order.
    pub open spec fn spec_rewards(&self) -> Seq<Reward> {
        self.rewards@
    }

    /// The grid sequence has exactly one tile per cell.
    pub open spec fn wf(&self) -> bool {
        &&& self.tiles@.len() == self.spec_width() * self.spec_height()
        &&& self.spec_width() * self.spec_height() <= usize::MAX
    }

    /// A maze of the given dimensions, entirely filled with untextured
    /// walls and holding no reward.
    pub fn new(dim: (usize, usize)) -> (m: Maze)
        requires
            dim.0 * dim.1 <= usize::MAX,
        ensures
            m.wf(),
            m.spec_width() == dim.0,
            m.spec_height() == dim.1,
            forall|i: int|
                0 <= i < m.spec_tiles().len() ==> m.spec_tiles()[i] == Tile::Wall(None::<
                    crate::tile::WallTexture,
                >),
            m.spec_rewards().len() == 0,
    {
        let (w, h) = dim;
        let n = w * h;
        let mut tiles: Vec<Tile> = Vec::new();
        let mut i: usize = 0;
        while i < n
            invariant
                i <= n,
                tiles@.len() == i,
                forall|j: int|
                    0 <= j < i ==> tiles@[j] == Tile::Wall(None::<crate::tile::WallTexture>),
            decreases n - i,
        {
            tiles.push(Tile::Wall(None));
            i += 1;
        }
        Maze { dim, tiles, rewards: Vec::new() }
    }

    /// Coordinate validity check: `pos` lies inside the grid.
    pub fn is_in_range(&self, pos: CellIndex) -> (b: bool)
        ensures
            b == in_rect(self.spec_width(), self.spec_height(), pos.x as int, pos.y as int),
    {
        pos.x < self.dim.0 && pos.y < self.dim.1
    }

    /// The tile at `pos`, or `OutOfBounds` for a cell outside the grid.
    pub fn get(&self, pos: CellIndex) -> (res: Result<Tile, MazeError>)
        requires
            self.wf(),
        ensures
            in_rect(self.spec_width(), self.spec_height(), pos.x as int, pos.y as int)
                ==> res == Ok::<Tile, MazeError>(
                self.spec_tiles()[idx(self.spec_width(), pos.x as int, pos.y as int)],
            ),
            !in_rect(self.spec_width(), self.spec_height(), pos.x as int, pos.y as int) ==> res
                == Err::<Tile, MazeError>(MazeError::OutOfBounds),
    {
        if !self.is_in_range(pos) {
            return Err(MazeError::OutOfBounds);
        }
        proof {
            lemma_idx_bounds(
                self.spec_width(),
                self.spec_height(),
                pos.x as int,
                pos.y as int,
            );
        }
        Ok(self.tiles[pos.y * self.dim.0 + pos.x])
    }

    /// Stores `tile` at `pos`; fails with `OutOfBounds`, leaving the maze
    /// unchanged, for a cell outside the grid.
    pub fn set(&mut self, pos: CellIndex, tile: Tile) -> (res: Result<(), MazeError>)
        requires
            old(self).wf(),
        ensures
            final(self).wf(),
            final(self).dim == old(self).dim,
            final(self).spec_rewards() == old(self).spec_rewards(),
            in_rect(old(self).spec_width(), old(self).spec_height(), pos.x as int, pos.y as int)
                ==> res == Ok::<(), MazeError>(()) && final(self).spec_tiles() == old(
                self,
            ).spec_tiles().update(
                idx(old(self).spec_width(), pos.x as int, pos.y as int),
                tile,
            ),
            !in_rect(old(self).spec_width(), old(self).spec_height(), pos.x as int, pos.y as int)
                ==> res == Err::<(), MazeError>(MazeError::OutOfBounds) && *final(self) == *old(
                self,
            ),
    {
        if !self.is_in_range(pos) {
            return Err(MazeError::OutOfBounds);
        }
        proof {
            lemma_idx_bounds(
                self.spec_width(),
                self.spec_height(),
                pos.x as int,
                pos.y as int,
            );
        }
        self.tiles[pos.y * self.dim.0 + pos.x] = tile;
        Ok(())
    }

    /// The first reward sitting on `pos`, if any.
    pub fn get_reward(&self, pos: CellIndex) -> (res: Option<&Reward>)
        ensures
            match res {
                Some(r) => {
                    &&& has_reward(self.spec_rewards(), pos.x as int, pos.y as int)
                    &&& r.pos == pos
                    &&& exists|i: int|
                        {
                            &&& 0 <= i < self.spec_rewards().len()
                            &&& #[trigger] self.spec_rewards()[i] == *r
                            &&& forall|j: int|
                                0 <= j < i ==> (#[trigger] self.spec_rewards()[j]).pos != pos
                        }
                },
                None => !has_reward(self.spec_rewards(), pos.x as int, pos.y as int),
            },
    {
        let n = self.rewards.len();
        let mut i: usize = 0;
        while i < n
            invariant
                i <= n,
                n == self.spec_rewards().len(),
                forall|j: int|
                    0 <= j < i ==> !(self.spec_rewards()[j].pos.x == pos.x
                        && self.spec_rewards()[j].pos.y == pos.y),
            decreases n - i,
        {
            let r = &self.rewards[i];
            if r.pos().x == pos.x && r.pos().y == pos.y {
                return Some(r);
            }
            i += 1;
        }
        None
    }

    /// Mutable access to the first reward sitting on `pos`, if any; used to
    /// flip its `found` flag. The grid and the other rewards are untouched.
    pub fn get_mut_reward(&mut self, pos: CellIndex) -> (res: Option<&mut Reward>)
        ensures
            final(self).dim == old(self).dim,
            final(self).spec_tiles() == old(self).spec_tiles(),
            match res {
                Some(r) => {
                    &&& exists|i: int|
                        {
                            &&& 0 <= i < old(self).spec_rewards().len()
                            &&& *r == #[trigger] old(self).spec_rewards()[i]
                            &&& final(self).spec_rewards() == old(self).spec_rewards().update(
                                i,
                                *final(r),
                            )
                            &&& forall|j: int|
                                0 <= j < i ==> (#[trigger] old(self).spec_rewards()[j]).pos != pos
                        }
                    &&& r.pos == pos
                },
                None => {
                    &&& !has_reward(old(self).spec_rewards(), pos.x as int, pos.y as int)
                    &&& final(self).spec_rewards() == old(self).spec_rewards()
                },
            },
    {
        let n = self.rewards.len();
        let mut i: usize = 0;
        while i < n
            invariant
                *self == *old(self),
                i <= n,
                n == self.spec_rewards().len(),
                forall|j: int|
                    0 <= j < i ==> !(self.spec_rewards()[j].pos.x == pos.x
                        && self.spec_rewards()[j].pos.y == pos.y),
            decreases n - i,
        {
            let hit = self.rewards[i].pos.x == pos.x && self.rewards[i].pos.y == pos.y;
            if hit {
                return Some(&mut self.rewards[i]);
            }
            i += 1;
        }
        None
    }

    /// The reward-discovery check: run when the player enters `pos`. A
    /// not-yet-found reward there is marked found, once and atomically, and
    /// its penalty flag is reported; discovering the same cell again (or a
    /// cell without a reward) changes nothing. The grid is never touched.
    pub fn discover(&mut self, pos: CellIndex) -> (res: Option<bool>)
        ensures
            final(self).dim == old(self).dim,
            final(self).spec_tiles() == old(self).spec_tiles(),
            match res {
                Some(malus) => exists|i: int|
                    {
                        &&& 0 <= i < old(self).spec_rewards().len()
                        &&& (#[trigger] old(self).spec_rewards()[i]).pos == pos
                        &&& !old(self).spec_rewards()[i].found
                        &&& malus == old(self).spec_rewards()[i].malus
                        &&& final(self).spec_rewards() == old(self).spec_rewards().update(
                            i,
                            crate::rewards::spec_found(old(self).spec_rewards()[i]),
                        )
                    },
                None => {
                    &&& final(self).spec_rewards() == old(self).spec_rewards()
                    &&& (has_reward(old(self).spec_rewards(), pos.x as int, pos.y as int)
                        ==> exists|i: int|
                        {
                            &&& 0 <= i < old(self).spec_rewards().len()
                            &&& (#[trigger] old(self).spec_rewards()[i]).pos == pos
                            &&& old(self).spec_rewards()[i].found
                        })
                },
            },
    {
        let ghost rs0 = self.rewards@;
        match self.get_mut_reward(pos) {
            Some(r) => {
                if r.found {
                    let res = None;
                    proof {
                        let i = choose|i: int|
                            0 <= i < rs0.len() && *r == rs0[i] && self.rewards@ == rs0.update(
                                i,
                                *final(r),
                            );
                        assert(rs0.update(i, rs0[i]) =~= rs0);
                    }
                    res
                } else {
                    let malus = r.malus;
                    r.mark_found();
                    Some(malus)
                }
            },
            None => None,
        }
    }
}

} // verus!
