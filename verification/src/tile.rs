//! Cell states of the maze grid and the wall-connector classification.
//!
//! A wall cell carries an optional connector texture tag; the tag is chosen
//! from the 4-neighbor wall occupancy (south, east, north, west) by
//! [`classify`]. An isolated wall (no wall neighbor at all) gets no tag.

use vstd::prelude::*;

verus! {

/// Connector category of a wall piece, named after the wall sprites it
/// selects: which of the four sides continue into another wall.
#[derive(Debug, Clone, Copy, PartialEq, Eq, Structural)]
pub enum WallTexture {
    /// Walls to the south and east: concave corner, top-left of a block.
    CornerTopLeft,
    /// Walls to the south and west: concave corner, top-right of a block.
    CornerTopRight,
    /// Walls to the north and east: concave corner, bottom-left of a block.
    CornerBottomLeft,
    /// Walls to the north and west: concave corner, bottom-right of a block.
    CornerBottomRight,
    /// Walls on all four sides: 4-way cross.
    CrossAll,
    /// Walls to the south, east and west: T-junction missing the north arm.
    CrossHoriTop,
    /// Walls to the east, north and west: T-junction missing the south arm.
    CrossHoriBottom,
    /// Walls to the south, east and north: T-junction missing the west arm.
    CrossVertLeft,
    /// Walls to the south, north and west: T-junction missing the east arm.
    CrossVertRight,
    /// Wall to the west only: right end cap of a horizontal run.
    HoriRight,
    /// Walls to the east and west: middle of a horizontal run.
    HoriMid,
    /// Wall to the east only: left end cap of a horizontal run.
    HoriLeft,
    /// Wall to the south only: top end cap of a vertical run.
    VertTop,
    /// Walls to the south and north: middle of a vertical run.
    VertMid,
    /// Wall to the north only: bottom end cap of a vertical run.
    VertBottom,
}

/// State of one grid cell: a wall piece (with its connector tag once the
/// classification pass has run) or carved ground.
#[derive(Debug, Clone, Copy, PartialEq, Eq, Structural)]
pub enum Tile {
    Wall(Option<WallTexture>),
    Ground,
}

/// The connector category selected by the wall occupancy of the four
/// neighbors, in (south, east, north, west) order; `None` for an isolated
/// wall, which stays untextured.
pub open spec fn spec_classify(s: bool, e: bool, n: bool, w: bool) -> Option<WallTexture> {
    if s && e && !n && !w {
        Some(WallTexture::CornerTopLeft)
    } else if s && !e && !n && w {
        Some(WallTexture::CornerTopRight)
    } else if !s && e && n && !w {
        Some(WallTexture::CornerBottomLeft)
    } else if !s && !e && n && w {
        Some(WallTexture::CornerBottomRight)
    } else if s && e && n && w {
        Some(WallTexture::CrossAll)
    } else if s && e && !n && w {
        Some(WallTexture::CrossHoriTop)
    } else if !s && e && n && w {
        Some(WallTexture::CrossHoriBottom)
    } else if s && e && n && !w {
        Some(WallTexture::CrossVertLeft)
    } else if s && !e && n && w {
        Some(WallTexture::CrossVertRight)
    } else if !s && !e && !n && w {
        Some(WallTexture::HoriRight)
    } else if !s && e && !n && w {
        Some(WallTexture::HoriMid)
    } else if !s && e && !n && !w {
        Some(WallTexture::HoriLeft)
    } else if s && !e && !n && !w {
        Some(WallTexture::VertTop)
    } else if s && !e && n && !w {
        Some(WallTexture::VertMid)
    } else if !s && !e && n && !w {
        Some(WallTexture::VertBottom)
    } else {
        None
    }
}

/// Maps the 4-neighbor wall occupancy (south, east, north, west) to the
/// connector category of a wall cell, exactly as `spec_classify` states it.
pub fn classify(s: bool, e: bool, n: bool, w: bool) -> (t: Option<WallTexture>)
    ensures
        t == spec_classify(s, e, n, w),
{
    match (s, e, n, w) {
        (true, true, false, false) => Some(WallTexture::CornerTopLeft),
        (true, false, false, true) => Some(WallTexture::CornerTopRight),
        (false, true, true, false) => Some(WallTexture::CornerBottomLeft),
        (false, false, true, true) => Some(WallTexture::CornerBottomRight),
        (true, true, true, true) => Some(WallTexture::CrossAll),
        (true, true, false, true) => Some(WallTexture::CrossHoriTop),
        (false, true, true, true) => Some(WallTexture::CrossHoriBottom),
        (true, true, true, false) => Some(WallTexture::CrossVertLeft),
        (true, false, true, true) => Some(WallTexture::CrossVertRight),
        (false, false, false, true) => Some(WallTexture::HoriRight),
        (false, true, false, true) => Some(WallTexture::HoriMid),
        (false, true, false, false) => Some(WallTexture::HoriLeft),
        (true, false, false, false) => Some(WallTexture::VertTop),
        (true, false, true, false) => Some(WallTexture::VertMid),
        (false, false, true, false) => Some(WallTexture::VertBottom),
        (false, false, false, false) => None,
    }
}

impl Tile {
    /// True exactly on wall cells, textured or not.
    pub fn is_wall(&self) -> (b: bool)
        ensures
            b == (self is Wall),
    {
        matches!(self, Tile::Wall(_))
    }
}

} // verus!
