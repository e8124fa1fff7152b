use advent::pipes::{clean_map, count_inner, find_coords, loop_cells, loop_length, offsets, start_to_pipe, START};

fn grid(text: &str) -> Vec<Vec<u8>> {
    text.lines().map(|l| l.as_bytes().to_vec()).collect()
}

fn farthest(text: &str) -> usize {
    let mut map = grid(text);
    let (r, c) = find_coords(&map, START).unwrap();
    assert!(start_to_pipe(&mut map, r, c));
    let n = loop_length(&map, r, c, map.len() * map[0].len()).unwrap();
    n / 2
}

fn inner(text: &str) -> u64 {
    let mut map = grid(text);
    let (r, c) = find_coords(&map, START).unwrap();
    assert!(start_to_pipe(&mut map, r, c));
    let n = loop_length(&map, r, c, map.len() * map[0].len()).unwrap();
    let marks = loop_cells(&map, r, c, n);
    count_inner(&clean_map(&map, &marks)).unwrap()
}

#[test]
fn square_loop_farthest_is_half_its_length() {
    let maze = ".....\n.S-7.\n.|.|.\n.L-J.\n.....";
    let mut map = grid(maze);
    let (r, c) = find_coords(&map, START).unwrap();
    assert_eq!((r, c), (1, 1));
    assert!(start_to_pipe(&mut map, r, c));
    assert_eq!(map[1][1], b'F');
    let n = loop_length(&map, r, c, 25).unwrap();
    assert_eq!(n, 8);
    assert_eq!(farthest(maze), 4);
}

#[test]
fn loop_with_clutter() {
    assert_eq!(farthest("-L|F7\n7S-7|\nL|7||\n-L-J|\nL|-JF"), 4);
    assert_eq!(farthest("..F7.\n.FJ|.\nSJ.L7\n|F--J\nLJ..."), 8);
}

#[test]
fn enclosed_cells() {
    let maze = "...........
.S-------7.
.|F-----7|.
.||.....||.
.||.....||.
.|L-7.F-J|.
.|..|.|..|.
.L--J.L--J.
...........";
    assert_eq!(inner(maze), 4);
    let maze2 = ".F----7F7F7F7F-7....
.|F--7||||||||FJ....
.||.FJ||||||||L7....
FJL7L7LJLJ||LJ.L-7..
L--J.L7...LJS7F-7L7.
....F-J..F7FJ|L7L7L7
....L7.F7||L7|.L7L7|
.....|FJLJ|FJ|F7|.LJ
....FJL-7.||.||||...
....L---J.LJ.LJLJ...";
    assert_eq!(inner(maze2), 8);
}

#[test]
fn neighbours_of_pipes() {
    let map = grid(".....\n.F-7.\n.|.|.\n.L-J.\n.....");
    assert_eq!(offsets(&map, 1, 1), vec![(2, 1), (1, 2)]);
    assert_eq!(offsets(&map, 2, 3), vec![(1, 3), (3, 3)]);
    assert_eq!(offsets(&map, 0, 0), vec![]);
}

#[test]
fn start_without_two_neighbours() {
    let mut map = grid("...\n.S.\n...");
    assert!(!start_to_pipe(&mut map, 1, 1));
    assert_eq!(map[1][1], b'S');
    assert!(find_coords(&grid("...\n..."), START).is_none());
}
