use advent::cubes::{minimum_power_sum, minimum_set, parse_color, parse_cubeset, parse_game, possible_id_sum, Color, CubeSet};

const GAMES: &str = "Game 1: 3 blue, 4 red; 1 red, 2 green, 6 blue; 2 green
Game 2: 1 blue, 2 green; 3 green, 4 blue, 1 red; 1 green, 1 blue
Game 3: 8 green, 6 blue, 20 red; 5 blue, 4 red, 13 green; 5 green, 1 red
Game 4: 1 green, 3 red, 6 blue; 3 green, 6 red; 3 green, 15 blue, 14 red
Game 5: 6 red, 1 blue, 3 green; 2 blue, 1 red, 2 green";

#[test]
fn record_power_is_product_of_maxima() {
    let g = parse_game(b"Game 1: 3 blue, 4 red; 1 red, 2 green, 6 blue").unwrap();
    assert_eq!(g.id, 1);
    assert_eq!(g.sets.len(), 2);
    let m = minimum_set(&g.sets);
    assert_eq!((m.red, m.green, m.blue), (4, 2, 6));
    assert_eq!(m.power(), Some(48));
}

#[test]
fn example_games() {
    let games: Vec<_> = GAMES.lines().map(|l| parse_game(l.as_bytes()).unwrap()).collect();
    let bag = CubeSet { red: 12, green: 13, blue: 14 };
    assert_eq!(possible_id_sum(&games, &bag), Some(8));
    assert_eq!(minimum_power_sum(&games), Some(2286));
}

#[test]
fn colors_go_to_their_own_count() {
    let (cs, _) = parse_cubeset(b"12 red, 13 green, 14 blue", 0).unwrap();
    assert_eq!((cs.red, cs.green, cs.blue), (12, 13, 14));
    let mut c = CubeSet::new_empty();
    c.add_cubes(3, Color::Green);
    c.add_cubes(2, Color::Blue);
    assert_eq!((c.red, c.green, c.blue), (0, 3, 2));
    assert!(cs.contains(&c));
    assert!(!c.contains(&cs));
    let mut d = CubeSet { red: 1, green: 20, blue: 1 };
    d.ensure_contains(&cs);
    assert_eq!((d.red, d.green, d.blue), (12, 20, 14));
}

#[test]
fn malformed_records() {
    assert!(parse_game(b"Gme 1: 3 blue").is_none());
    assert!(parse_game(b"Game 1: 3 purple").is_none());
    assert_eq!(parse_color(b"7 blue", 0), Some((7, Color::Blue, 6)));
    assert!(parse_color(b"7blue", 0).is_none());
    let big = CubeSet { red: u64::MAX, green: 2, blue: 1 };
    assert_eq!(big.power(), None);
}
