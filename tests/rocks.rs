use advent::rocks::{copy_grid, cycle, load_after_cycles, part1_load, roll, roll_east, roll_north, roll_south, roll_west, same_grid, Direction};

const PLATFORM: &str = "O....#....
O.OO#....#
.....##...
OO.#O....O
.O.....O#.
O.#..O.#.#
..O..#O..O
.......O..
#....###..
#OO..#....";

fn grid(text: &str) -> Vec<Vec<u8>> {
    text.lines().map(|l| l.as_bytes().to_vec()).collect()
}

fn show(g: &[Vec<u8>]) -> String {
    g.iter().map(|r| String::from_utf8(r.clone()).unwrap()).collect::<Vec<_>>().join("\n")
}

fn count(g: &[Vec<u8>], b: u8) -> usize {
    g.iter().flatten().filter(|&&c| c == b).count()
}

#[test]
fn north_load() {
    let mut g = grid(PLATFORM);
    roll_north(&mut g);
    assert_eq!(part1_load(&g), Some(136));
    assert_eq!(
        show(&g),
        "OOOO.#.O..
OO..#....#
OO..O##..O
O..#.OO...
........#.
..#....#.#
..O..#.O.O
..O.......
#....###..
#....#...."
    );
}

#[test]
fn one_spin() {
    let mut g = grid(PLATFORM);
    cycle(&mut g);
    assert_eq!(
        show(&g),
        ".....#....
....#...O#
...OO##...
.OO#......
.....OOO#.
.O#...O#.#
....O#....
......OOOO
#...O###..
#..OO#...."
    );
}

#[test]
fn load_after_a_billion_spins() {
    assert_eq!(load_after_cycles(grid(PLATFORM), 1_000_000_000, 100_000), Some(64));
}

#[test]
fn detected_period_matches_brute_force() {
    for target in 0..40usize {
        let mut g = grid(PLATFORM);
        for _ in 0..target {
            cycle(&mut g);
        }
        assert_eq!(load_after_cycles(grid(PLATFORM), target, 100_000), part1_load(&g), "{}", target);
    }
}

#[test]
fn small_periodic_board() {
    let board = "O.#\n...\n#.O";
    for target in 0..12usize {
        let mut g = grid(board);
        for _ in 0..target {
            cycle(&mut g);
        }
        assert_eq!(load_after_cycles(grid(board), target, 50), part1_load(&g));
    }
}

#[test]
fn too_few_spins_gives_none() {
    assert_eq!(load_after_cycles(grid(PLATFORM), 1_000_000_000, 2), None);
}

#[test]
fn rolling_twice_equals_rolling_once() {
    for dir in [Direction::North, Direction::West, Direction::South, Direction::East] {
        let mut once = grid(PLATFORM);
        roll(&mut once, dir);
        let mut twice = copy_grid(&once);
        roll(&mut twice, dir);
        assert!(same_grid(&once, &twice));
    }
}

#[test]
fn rolls_keep_every_cell_kind() {
    let g0 = grid(PLATFORM);
    let mut g = grid(PLATFORM);
    roll_west(&mut g);
    roll_south(&mut g);
    roll_east(&mut g);
    assert_eq!(count(&g, b'O'), count(&g0, b'O'));
    assert_eq!(count(&g, b'#'), count(&g0, b'#'));
    assert_eq!(count(&g, b'.'), count(&g0, b'.'));
    for (r, row) in g0.iter().enumerate() {
        for (c, &b) in row.iter().enumerate() {
            if b == b'#' {
                assert_eq!(g[r][c], b'#');
            }
        }
    }
}

#[test]
fn empty_board() {
    let mut g: Vec<Vec<u8>> = Vec::new();
    roll_north(&mut g);
    assert!(g.is_empty());
    assert_eq!(part1_load(&g), Some(0));
}
