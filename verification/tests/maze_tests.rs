use pate2crabe::maze::{CellIndex, Direction, Maze, MazeError};
use pate2crabe::tile::Tile;
use rand::SeedableRng;

fn seeded(seed: u64) -> rand::rngs::StdRng {
    rand::rngs::StdRng::seed_from_u64(seed)
}

fn is_ground(m: &Maze, x: usize, y: usize) -> bool {
    matches!(m.get(CellIndex::new(x, y)), Ok(Tile::Ground))
}

/// Flood fill over ground cells from (1, 1); returns the visited set as a
/// row-major boolean grid.
fn flood_fill(m: &Maze) -> Vec<bool> {
    let (w, h) = m.dim;
    let mut seen = vec![false; w * h];
    let mut queue: Vec<(usize, usize)> = Vec::new();
    if is_ground(m, 1, 1) {
        seen[w + 1] = true;
        queue.push((1, 1));
    }
    while let Some((x, y)) = queue.pop() {
        let mut neighbors: Vec<(usize, usize)> = Vec::new();
        if x > 0 {
            neighbors.push((x - 1, y));
        }
        if y > 0 {
            neighbors.push((x, y - 1));
        }
        if x + 1 < w {
            neighbors.push((x + 1, y));
        }
        if y + 1 < h {
            neighbors.push((x, y + 1));
        }
        for (nx, ny) in neighbors {
            if !seen[ny * w + nx] && is_ground(m, nx, ny) {
                seen[ny * w + nx] = true;
                queue.push((nx, ny));
            }
        }
    }
    seen
}

#[test]
fn new_grid_is_all_walls() {
    let m = Maze::new((5, 7));
    for y in 0..7 {
        for x in 0..5 {
            assert_eq!(m.get(CellIndex::new(x, y)), Ok(Tile::Wall(None)));
        }
    }
    assert!(m.rewards.is_empty());
}

#[test]
fn get_and_set_out_of_bounds() {
    let mut m = Maze::new((5, 5));
    assert_eq!(m.get(CellIndex::new(5, 0)), Err(MazeError::OutOfBounds));
    assert_eq!(m.get(CellIndex::new(0, 5)), Err(MazeError::OutOfBounds));
    assert_eq!(m.set(CellIndex::new(7, 7), Tile::Ground), Err(MazeError::OutOfBounds));
    assert!(m.is_in_range(CellIndex::new(4, 4)));
    assert!(!m.is_in_range(CellIndex::new(4, 5)));
    // The failed set left everything walled.
    assert_eq!(m.get(CellIndex::new(4, 4)), Ok(Tile::Wall(None)));
}

#[test]
fn set_then_get_roundtrip() {
    let mut m = Maze::new((5, 5));
    assert_eq!(m.set(CellIndex::new(2, 3), Tile::Ground), Ok(()));
    assert_eq!(m.get(CellIndex::new(2, 3)), Ok(Tile::Ground));
    assert_eq!(m.get(CellIndex::new(3, 2)), Ok(Tile::Wall(None)));
}

#[test]
fn direction_offsets() {
    assert_eq!(Direction::North.as_relative(), (0, -1));
    assert_eq!(Direction::East.as_relative(), (1, 0));
    assert_eq!(Direction::South.as_relative(), (0, 1));
    assert_eq!(Direction::West.as_relative(), (-1, 0));
}

#[test]
fn fixed_seed_standard_scenario() {
    // A 21x21 grid (10x10 lattice) with six rewards from a fixed seed.
    let mut m = Maze::new((21, 21));
    let mut rng = seeded(20200517);
    assert_eq!(m.generate(&mut rng, 6), Ok(()));

    // Exactly three bonuses and three penalties.
    assert_eq!(m.rewards.len(), 6);
    assert_eq!(m.rewards.iter().filter(|r| !r.malus).count(), 3);
    assert_eq!(m.rewards.iter().filter(|r| r.malus).count(), 3);

    // Connected from the entry (1, 1) to the exit (19, 19).
    let seen = flood_fill(&m);
    assert!(seen[19 * 21 + 19], "exit not reached from entry");

    // No carving along row 0 or column 0.
    for i in 0..21 {
        assert!(!is_ground(&m, i, 0));
        assert!(!is_ground(&m, 0, i));
    }
}

#[test]
fn border_stays_walled() {
    let mut m = Maze::new((21, 21));
    let mut rng = seeded(7);
    assert_eq!(m.generate(&mut rng, 6), Ok(()));
    for i in 0..21 {
        assert!(!is_ground(&m, i, 0));
        assert!(!is_ground(&m, i, 20));
        assert!(!is_ground(&m, 0, i));
        assert!(!is_ground(&m, 20, i));
    }
}

#[test]
fn rewards_odd_interior_distinct() {
    let mut m = Maze::new((21, 21));
    let mut rng = seeded(99);
    assert_eq!(m.generate(&mut rng, 6), Ok(()));
    for (i, r) in m.rewards.iter().enumerate() {
        let p = *r.pos();
        assert_eq!(p.x % 2, 1);
        assert_eq!(p.y % 2, 1);
        assert!((1..=19).contains(&p.x));
        assert!((1..=19).contains(&p.y));
        assert!(!(p.x == 1 && p.y == 1));
        assert!(!r.found);
        for (j, other) in m.rewards.iter().enumerate() {
            if i != j {
                assert_ne!(*r.pos(), *other.pos());
            }
        }
    }
}

#[test]
fn rewards_are_dead_ends() {
    let mut m = Maze::new((21, 21));
    let mut rng = seeded(1234);
    assert_eq!(m.generate(&mut rng, 6), Ok(()));
    for r in &m.rewards {
        let p = *r.pos();
        let mut open = 0;
        if is_ground(&m, p.x, p.y - 1) {
            open += 1;
        }
        if is_ground(&m, p.x + 1, p.y) {
            open += 1;
        }
        if is_ground(&m, p.x, p.y + 1) {
            open += 1;
        }
        if is_ground(&m, p.x - 1, p.y) {
            open += 1;
        }
        assert!(open <= 1, "reward at {:?} is a through route", p);
        // The passage never comes from directly above.
        assert!(!is_ground(&m, p.x, p.y - 1));
    }
}

#[test]
fn carved_graph_is_spanning_tree() {
    let mut m = Maze::new((21, 21));
    let mut rng = seeded(4242);
    assert_eq!(m.generate(&mut rng, 6), Ok(()));
    let mut vertices = 0;
    let mut edges = 0;
    for y in 0..21 {
        for x in 0..21 {
            if is_ground(&m, x, y) {
                if x % 2 == 1 && y % 2 == 1 {
                    vertices += 1;
                } else {
                    edges += 1;
                }
            }
        }
    }
    assert_eq!(edges, vertices - 1);
    // And connected: the flood fill visits every carved cell.
    let seen = flood_fill(&m);
    for y in 0..21 {
        for x in 0..21 {
            assert_eq!(seen[y * 21 + x], is_ground(&m, x, y));
        }
    }
}

#[test]
fn generation_error_when_rewards_cannot_fit() {
    // A 5x5 grid has a 2x2 lattice: three vertices besides the entry, so
    // ten rewards can never be placed.
    let mut m = Maze::new((5, 5));
    let mut rng = seeded(1);
    assert_eq!(m.generate(&mut rng, 10), Err(MazeError::ConfigurationError));
    // The failed generation left the maze untouched.
    assert!(m.rewards.is_empty());
    for y in 0..5 {
        for x in 0..5 {
            assert_eq!(m.get(CellIndex::new(x, y)), Ok(Tile::Wall(None)));
        }
    }
}

#[test]
fn generation_without_rewards_succeeds() {
    let mut m = Maze::new((5, 5));
    let mut rng = seeded(2);
    assert_eq!(m.generate(&mut rng, 0), Ok(()));
    assert!(m.rewards.is_empty());
    let seen = flood_fill(&m);
    assert!(seen[3 * 5 + 3], "exit (3, 3) not reached");
}

#[test]
fn different_seeds_differ() {
    let mut a = Maze::new((21, 21));
    let mut b = Maze::new((21, 21));
    let mut rng_a = seeded(10);
    let mut rng_b = seeded(11);
    assert_eq!(a.generate(&mut rng_a, 6), Ok(()));
    assert_eq!(b.generate(&mut rng_b, 6), Ok(()));
    let mut differ = false;
    for y in 0..21 {
        for x in 0..21 {
            if is_ground(&a, x, y) != is_ground(&b, x, y) {
                differ = true;
            }
        }
    }
    assert!(differ, "two seeds carved identical mazes");
}

#[test]
fn discovery_marks_once() {
    let mut m = Maze::new((21, 21));
    let mut rng = seeded(77);
    assert_eq!(m.generate(&mut rng, 6), Ok(()));
    let pos = *m.rewards[0].pos();
    let malus = m.rewards[0].malus;

    assert_eq!(m.discover(pos), Some(malus));
    assert!(m.get_reward(pos).unwrap().found);
    // Discovering again changes nothing and reports nothing.
    assert_eq!(m.discover(pos), None);
    assert!(m.get_reward(pos).unwrap().found);
    // A cell without a reward reports nothing.
    assert_eq!(m.discover(CellIndex::new(2, 2)), None);
}

#[test]
fn get_reward_finds_by_position() {
    let mut m = Maze::new((21, 21));
    let mut rng = seeded(5);
    assert_eq!(m.generate(&mut rng, 6), Ok(()));
    for r in m.rewards.clone() {
        let found = m.get_reward(*r.pos()).expect("placed reward not found");
        assert_eq!(*found.pos(), *r.pos());
    }
    assert!(m.get_reward(CellIndex::new(2, 2)).is_none());
    let via_mut = m.get_mut_reward(CellIndex::new(2, 2));
    assert!(via_mut.is_none());
}
