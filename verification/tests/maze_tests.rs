use maze::Dir;
use maze::DirectionSource;
use maze::Maze;
use maze::ReplayDirs;
use maze::dir::dir_from_quartile;
use maze::maze::DEFAULT_STEP_LIMIT;
use maze::maze::GRID_HEIGHT;
use maze::maze::GRID_WIDTH;

/// A small linear congruential generator standing in for a host random
/// source, to drive full-size generation from test code.
struct Lcg(u64);

impl DirectionSource for Lcg {
    fn next_dir(&mut self) -> Dir {
        self.0 = self
            .0
            .wrapping_mul(6364136223846793005)
            .wrapping_add(1442695040888963407);
        dir_from_quartile(((self.0 >> 33) & 3) as u8)
    }
}

fn generate_with(width: usize, height: usize, record: Vec<Dir>) -> Maze {
    let mut rng = ReplayDirs::new(record);
    let mut steps: u64 = 1_000_000;
    Maze::generate(width, height, &mut rng, &mut steps).expect("carve did not converge")
}

fn cell(bytes: &[u8], width: usize, x: usize, y: usize) -> u8 {
    bytes[y * width + x]
}

/// Flood-fills the open cells from one starting cell and reports how many
/// were reached.
fn reachable_open_cells(bytes: &[u8], width: usize, height: usize) -> usize {
    let start = match bytes.iter().position(|&b| b == 0) {
        Some(i) => i,
        None => return 0,
    };
    let mut seen = vec![false; bytes.len()];
    let mut stack = vec![start];
    seen[start] = true;
    let mut count = 0;
    while let Some(i) = stack.pop() {
        count += 1;
        let x = i % width;
        let y = i / width;
        let mut neighbors = Vec::new();
        if x > 0 {
            neighbors.push(i - 1);
        }
        if x + 1 < width {
            neighbors.push(i + 1);
        }
        if y > 0 {
            neighbors.push(i - width);
        }
        if y + 1 < height {
            neighbors.push(i + width);
        }
        for n in neighbors {
            if bytes[n] == 0 && !seen[n] {
                seen[n] = true;
                stack.push(n);
            }
        }
    }
    count
}

fn check_structure(bytes: &[u8], width: usize, height: usize) {
    assert_eq!(bytes.len(), width * height);
    // border invariant
    for x in 0..width {
        assert_eq!(cell(bytes, width, x, 0), 1);
        assert_eq!(cell(bytes, width, x, height - 1), 1);
    }
    for y in 0..height {
        assert_eq!(cell(bytes, width, 0, y), 1);
        assert_eq!(cell(bytes, width, width - 1, y), 1);
    }
    // no residual markers
    assert!(bytes.iter().all(|&b| b == 0 || b == 1));
    // lattice well-formedness: a walled doorway joins two walled lattice cells
    for y in 0..height {
        for x in 0..width {
            if cell(bytes, width, x, y) == 1 {
                if x % 2 == 1 && y % 2 == 0 {
                    assert_eq!(cell(bytes, width, x - 1, y), 1);
                    assert_eq!(cell(bytes, width, x + 1, y), 1);
                }
                if x % 2 == 0 && y % 2 == 1 {
                    assert_eq!(cell(bytes, width, x, y - 1), 1);
                    assert_eq!(cell(bytes, width, x, y + 1), 1);
                }
            }
        }
    }
    // no lattice wall stands alone: some adjacent doorway is walled too
    let mut ly = 2;
    while ly <= height - 3 {
        let mut lx = 2;
        while lx <= width - 3 {
            if cell(bytes, width, lx, ly) == 1 {
                assert!(
                    cell(bytes, width, lx - 1, ly) == 1
                        || cell(bytes, width, lx + 1, ly) == 1
                        || cell(bytes, width, lx, ly - 1) == 1
                        || cell(bytes, width, lx, ly + 1) == 1
                );
            }
            lx += 2;
        }
        ly += 2;
    }
    // cells odd in both axes stay open
    for y in 0..height {
        for x in 0..width {
            if x % 2 == 1 && y % 2 == 1 {
                assert_eq!(cell(bytes, width, x, y), 0);
            }
        }
    }
    // every interior lattice point was resolved to wall
    let mut y = 2;
    while y <= height - 3 {
        let mut x = 2;
        while x <= width - 3 {
            assert_eq!(cell(bytes, width, x, y), 1);
            x += 2;
        }
        y += 2;
    }
}

#[test]
fn minimal_grid_single_seed_down() {
    let m = generate_with(5, 5, vec![Dir::Down]);
    assert_eq!(m.width(), 5);
    assert_eq!(m.height(), 5);
    let bytes = m.cells();
    let expected: Vec<u8> = vec![
        1, 1, 1, 1, 1,
        1, 0, 0, 0, 1,
        1, 0, 1, 0, 1,
        1, 0, 1, 0, 1,
        1, 1, 1, 1, 1,
    ];
    assert_eq!(bytes, expected);
}

#[test]
fn minimal_grid_single_seed_up() {
    let m = generate_with(5, 5, vec![Dir::Up]);
    let bytes = m.cells();
    let expected: Vec<u8> = vec![
        1, 1, 1, 1, 1,
        1, 0, 1, 0, 1,
        1, 0, 1, 0, 1,
        1, 0, 0, 0, 1,
        1, 1, 1, 1, 1,
    ];
    assert_eq!(bytes, expected);
}

#[test]
fn minimal_grid_seed_always_resolves() {
    for d in [Dir::Up, Dir::Right, Dir::Down, Dir::Left] {
        let m = generate_with(5, 5, vec![d]);
        let bytes = m.cells();
        // the single interior seed (2, 2) always ends up walled
        assert_eq!(cell(&bytes, 5, 2, 2), 1);
        // exactly one doorway beside the seed is walled: the one the single
        // stride crossed on its way to the border
        let doorways = [(2, 1), (3, 2), (2, 3), (1, 2)];
        let walled = doorways
            .iter()
            .filter(|&&(x, y)| cell(&bytes, 5, x, y) == 1)
            .count();
        assert_eq!(walled, 1);
        // every other interior cell stays open
        for y in 1..4 {
            for x in 1..4 {
                if (x, y) != (2, 2) && !doorways.contains(&(x, y)) {
                    assert_eq!(cell(&bytes, 5, x, y), 0);
                }
            }
        }
        check_structure(&bytes, 5, 5);
    }
}

#[test]
fn replay_determinism() {
    let record = vec![
        Dir::Right,
        Dir::Left,
        Dir::Down,
        Dir::Down,
        Dir::Down,
        Dir::Down,
        Dir::Down,
        Dir::Down,
        Dir::Down,
        Dir::Down,
    ];
    let a = generate_with(9, 9, record.clone());
    let b = generate_with(9, 9, record);
    assert_eq!(a.cells(), b.cells());
    check_structure(&a.cells(), 9, 9);
}

#[test]
fn replay_exercises_revert() {
    // from the first seed the walk steps right, then back onto its own
    // trail: the attempt must revert and the retry carve downward
    let record = vec![
        Dir::Right,
        Dir::Left,
        Dir::Down,
        Dir::Down,
        Dir::Down,
        Dir::Down,
        Dir::Down,
        Dir::Down,
        Dir::Down,
        Dir::Down,
    ];
    let m = generate_with(9, 9, record);
    let bytes = m.cells();
    check_structure(&bytes, 9, 9);
}

#[test]
fn previously_returned_grid_is_untouched() {
    let first = generate_with(9, 9, vec![Dir::Down]);
    let snapshot = first.cells();
    let second = generate_with(9, 9, vec![Dir::Down]);
    assert_eq!(first.cells(), snapshot);
    assert_eq!(second.cells(), snapshot);
}

#[test]
fn full_size_structure_and_connectivity() {
    let mut rng = Lcg(0x853c49e6748fea9b);
    let m = Maze::new(&mut rng).expect("carve did not converge");
    assert_eq!(m.width(), GRID_WIDTH);
    assert_eq!(m.height(), GRID_HEIGHT);
    let bytes = m.cells();
    check_structure(&bytes, GRID_WIDTH, GRID_HEIGHT);
    // connectivity: all open cells form one component
    let open = bytes.iter().filter(|&&b| b == 0).count();
    assert!(open > 0);
    assert_eq!(reachable_open_cells(&bytes, GRID_WIDTH, GRID_HEIGHT), open);
}

#[test]
fn small_grid_connectivity() {
    let m = generate_with(5, 5, vec![Dir::Left]);
    let bytes = m.cells();
    let open = bytes.iter().filter(|&&b| b == 0).count();
    assert_eq!(reachable_open_cells(&bytes, 5, 5), open);
}

#[test]
fn exhausted_budget_returns_none() {
    // an endlessly self-colliding record: step right, then step back onto
    // the fresh trail, forever
    let mut rng = ReplayDirs::new(vec![Dir::Right, Dir::Left]);
    let mut steps: u64 = 1000;
    let m = Maze::generate(9, 9, &mut rng, &mut steps);
    assert!(m.is_none());
    assert_eq!(steps, 0);
}

#[test]
fn zero_budget_returns_none() {
    let mut rng = ReplayDirs::new(vec![Dir::Down]);
    let mut steps: u64 = 0;
    let m = Maze::generate(5, 5, &mut rng, &mut steps);
    assert!(m.is_none());
    assert_eq!(steps, 0);
}

#[test]
fn quartiles_map_to_directions_in_order() {
    assert_eq!(dir_from_quartile(0), Dir::Up);
    assert_eq!(dir_from_quartile(1), Dir::Right);
    assert_eq!(dir_from_quartile(2), Dir::Down);
    assert_eq!(dir_from_quartile(3), Dir::Left);
}

#[test]
fn replay_source_cycles() {
    let mut rng = ReplayDirs::new(vec![Dir::Up, Dir::Right, Dir::Left]);
    let drawn: Vec<Dir> = (0..7).map(|_| rng.next_dir()).collect();
    assert_eq!(
        drawn,
        vec![
            Dir::Up,
            Dir::Right,
            Dir::Left,
            Dir::Up,
            Dir::Right,
            Dir::Left,
            Dir::Up
        ]
    );
}

#[test]
fn default_step_limit_is_generous() {
    assert!(DEFAULT_STEP_LIMIT >= 1_000_000);
}
