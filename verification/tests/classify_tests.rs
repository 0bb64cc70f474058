use pate2crabe::maze::{CellIndex, Maze};
use rand::SeedableRng;
use pate2crabe::tile::{classify, Tile, WallTexture};

#[test]
fn classifier_table_is_exact() {
    // (south, east, north, west) in the evaluation order of the pass.
    assert_eq!(classify(true, true, false, false), Some(WallTexture::CornerTopLeft));
    assert_eq!(classify(true, false, false, true), Some(WallTexture::CornerTopRight));
    assert_eq!(classify(false, true, true, false), Some(WallTexture::CornerBottomLeft));
    assert_eq!(classify(false, false, true, true), Some(WallTexture::CornerBottomRight));
    assert_eq!(classify(true, true, true, true), Some(WallTexture::CrossAll));
    assert_eq!(classify(true, true, false, true), Some(WallTexture::CrossHoriTop));
    assert_eq!(classify(false, true, true, true), Some(WallTexture::CrossHoriBottom));
    assert_eq!(classify(true, true, true, false), Some(WallTexture::CrossVertLeft));
    assert_eq!(classify(true, false, true, true), Some(WallTexture::CrossVertRight));
    assert_eq!(classify(false, false, false, true), Some(WallTexture::HoriRight));
    assert_eq!(classify(false, true, false, true), Some(WallTexture::HoriMid));
    assert_eq!(classify(false, true, false, false), Some(WallTexture::HoriLeft));
    assert_eq!(classify(true, false, false, false), Some(WallTexture::VertTop));
    assert_eq!(classify(true, false, true, false), Some(WallTexture::VertMid));
    assert_eq!(classify(false, false, true, false), Some(WallTexture::VertBottom));
    assert_eq!(classify(false, false, false, false), None);
}

#[test]
fn classifier_assigns_some_for_every_nonempty_pattern() {
    for bits in 0u32..16 {
        let s = bits & 1 != 0;
        let e = bits & 2 != 0;
        let n = bits & 4 != 0;
        let w = bits & 8 != 0;
        let tag = classify(s, e, n, w);
        assert_eq!(tag.is_some(), s || e || n || w);
    }
}

#[test]
fn isolated_wall_gets_no_texture() {
    // Carve all four neighbors of the center cell of a 5x5 grid; the
    // center wall then touches no other wall and must stay untextured.
    let mut m = Maze::new((5, 5));
    for (x, y) in [(2, 1), (2, 3), (1, 2), (3, 2)] {
        m.set(CellIndex::new(x, y), Tile::Ground).unwrap();
    }
    m.set_textures();
    assert_eq!(m.get(CellIndex::new(2, 2)), Ok(Tile::Wall(None)));
}

#[test]
fn pass_matches_table_on_a_generated_maze() {
    let mut m = Maze::new((21, 21));
    let mut rng = rand::rngs::StdRng::seed_from_u64(31337);
    assert_eq!(m.generate(&mut rng, 6), Ok(()));
    let wall = |x: isize, y: isize| -> bool {
        if !(0..21).contains(&x) || !(0..21).contains(&y) {
            return false;
        }
        matches!(
            m.get(CellIndex::new(x as usize, y as usize)),
            Ok(Tile::Wall(_))
        )
    };
    for y in 0..21isize {
        for x in 0..21isize {
            let got = m.get(CellIndex::new(x as usize, y as usize)).unwrap();
            match got {
                Tile::Ground => {}
                Tile::Wall(tag) => {
                    let expect = classify(
                        wall(x, y + 1),
                        wall(x + 1, y),
                        wall(x, y - 1),
                        wall(x - 1, y),
                    );
                    assert_eq!(tag, expect, "wrong texture at ({}, {})", x, y);
                }
            }
        }
    }
}

#[test]
fn corner_textures_appear_on_the_border() {
    // The border ring of any generated maze is one connected run of walls;
    // its corner at (0, 0) has walls south and east only.
    let mut m = Maze::new((21, 21));
    let mut rng = rand::rngs::StdRng::seed_from_u64(8);
    assert_eq!(m.generate(&mut rng, 6), Ok(()));
    assert_eq!(
        m.get(CellIndex::new(0, 0)),
        Ok(Tile::Wall(Some(WallTexture::CornerTopLeft)))
    );
    assert_eq!(
        m.get(CellIndex::new(20, 0)),
        Ok(Tile::Wall(Some(WallTexture::CornerTopRight)))
    );
    assert_eq!(
        m.get(CellIndex::new(0, 20)),
        Ok(Tile::Wall(Some(WallTexture::CornerBottomLeft)))
    );
    assert_eq!(
        m.get(CellIndex::new(20, 20)),
        Ok(Tile::Wall(Some(WallTexture::CornerBottomRight)))
    );
}

#[test]
fn tile_is_wall() {
    assert!(Tile::Wall(None).is_wall());
    assert!(Tile::Wall(Some(WallTexture::CrossAll)).is_wall());
    assert!(!Tile::Ground.is_wall());
}
