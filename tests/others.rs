use advent::cards::{parse_card, total_cards};
use advent::galaxies::{distance_sum, empty_cols, empty_rows, find_galaxies};
use advent::hands::{card_to_value, hand_key, parse_hand, total_winnings, Value};
use advent::lenses::{apply_operation, focusing_power, hash, hash_total, parse_operation, Lens, Operation};
use advent::mirrors::{count_ones, find_reflections, find_reflections_pt2, rotate_grid, row_to_u64, sum_lines};
use advent::races::{concat_digits, parse_races, win_product, Race};
use advent::sequences::{difference_of_steps, parse_signed_list, predict, predict_all};
use advent::text::{lines, parse_number, parse_number_list, split};

#[test]
fn race_ways() {
    let races = parse_races(b"Time:      7  15   30", b"Distance:  9  40  200").unwrap();
    assert_eq!(races.len(), 3);
    assert_eq!(races[0].win_states(), 4);
    assert_eq!(races[1].win_states(), 8);
    assert_eq!(races[2].win_states(), 9);
    assert_eq!(win_product(&races), Some(288));
    assert_eq!(races[0].distance_traveled(3), 12);
    let t = concat_digits(concat_digits(7, 15).unwrap(), 30).unwrap();
    let d = concat_digits(concat_digits(9, 40).unwrap(), 200).unwrap();
    assert_eq!((t, d), (71530, 940200));
    assert_eq!(Race { time: t, distance: d }.win_states(), 71503);
    assert_eq!(concat_digits(12, 0), Some(120));
    assert_eq!(concat_digits(u64::MAX, 1), None);
}

#[test]
fn sequence_predictions() {
    assert_eq!(predict(&[0, 3, 6, 9, 12, 15]), Some((18, -3)));
    assert_eq!(predict(&[1, 3, 6, 10, 15, 21]), Some((28, 0)));
    assert_eq!(predict(&[10, 13, 16, 21, 30, 45]), Some((68, 5)));
    let all = vec![vec![0, 3, 6, 9, 12, 15], vec![1, 3, 6, 10, 15, 21], vec![10, 13, 16, 21, 30, 45]];
    assert_eq!(predict_all(&all), Some((114, 2)));
    assert_eq!(difference_of_steps(&[1, 4, 9]), Some(vec![3, 5]));
    assert_eq!(difference_of_steps(&[i64::MIN, i64::MAX]), None);
    assert_eq!(predict(&[]), Some((0, 0)));
}

#[test]
fn scratchcards() {
    let text = "Card 1: 41 48 83 86 17 | 83 86  6 31 17  9 48 53
Card 2: 13 32 20 16 61 | 61 30 68 82 17 32 24 19
Card 3:  1 21 53 59 44 | 69 82 63 72 16 21 14  1
Card 4: 41 92 73 84 69 | 59 84 76 51 58  5 54 83
Card 5: 87 83 26 28 32 | 88 30 70 12 93 22 82 36
Card 6: 31 18 13 56 72 | 74 77 10 23 35 67 36 11";
    let cards: Vec<_> = text.lines().map(|l| parse_card(l.as_bytes()).unwrap()).collect();
    let points: u64 = cards.iter().map(|c| c.part1_value().unwrap()).sum();
    assert_eq!(points, 13);
    let counts: Vec<u64> = cards.iter().map(|c| c.winning_number_count()).collect();
    assert_eq!(counts, vec![4, 2, 2, 1, 0, 0]);
    assert_eq!(total_cards(&counts), Some(30));
    assert_eq!(cards[2].id, 3);
}

#[test]
fn camel_cards() {
    let text = "32T3K 765\nT55J5 684\nKK677 28\nKTJJT 220\nQQQJA 483";
    let hands: Vec<_> = text.lines().map(|l| parse_hand(l.as_bytes()).unwrap()).collect();
    assert_eq!(hands[0].value_before_jokers(), Some(Value::OnePair));
    assert_eq!(hands[1].value_before_jokers(), Some(Value::ThreeOfAKind));
    let keys: Vec<u64> = hands.iter().map(|h| hand_key(h).unwrap()).collect();
    let bids: Vec<u64> = hands.iter().map(|h| h.bid).collect();
    assert_eq!(total_winnings(&keys, &bids), Some(6440));
    let jokers: Vec<_> = hands.iter().map(|h| h.with_jokers()).collect();
    assert_eq!(jokers[3].value(), Some(Value::FourOfAKind));
    let keys: Vec<u64> = jokers.iter().map(|h| hand_key(h).unwrap()).collect();
    assert_eq!(total_winnings(&keys, &bids), Some(5905));
    assert_eq!(card_to_value(b'A'), Some(14));
    assert_eq!(card_to_value(b'1'), None);
}

#[test]
fn equal_hands_keep_their_order() {
    assert_eq!(total_winnings(&vec![5, 5, 1], &vec![10, 20, 30]), Some(30 * 1 + 10 * 2 + 20 * 3));
}

#[test]
fn galaxy_distances() {
    let text = "...#......
.......#..
#.........
..........
......#...
.#........
.........#
..........
.......#..
#...#.....";
    let map: Vec<Vec<u8>> = text.lines().map(|l| l.as_bytes().to_vec()).collect();
    let g = find_galaxies(&map);
    assert_eq!(g.len(), 9);
    assert_eq!(g[0], (0, 3));
    let er = empty_rows(&map);
    let ec = empty_cols(&map, 10);
    assert_eq!(er.iter().filter(|&&b| b).count(), 2);
    assert_eq!(ec.iter().filter(|&&b| b).count(), 3);
    assert_eq!(distance_sum(&g, &er, &ec, 2), Some(374));
    assert_eq!(distance_sum(&g, &er, &ec, 10), Some(1030));
    assert_eq!(distance_sum(&g, &er, &ec, 100), Some(8410));
}

fn mirror_score(block: &str, smudged: bool) -> u64 {
    let grid: Vec<Vec<u8>> = block.lines().map(|l| l.as_bytes().to_vec()).collect();
    let rows: Vec<u64> = grid.iter().map(|r| row_to_u64(r)).collect();
    let cols: Vec<u64> = rotate_grid(&grid).iter().map(|r| row_to_u64(r)).collect();
    let (r, c) = if smudged {
        (find_reflections_pt2(&rows), find_reflections_pt2(&cols))
    } else {
        (find_reflections(&rows), find_reflections(&cols))
    };
    100 * sum_lines(&r).unwrap() + sum_lines(&c).unwrap()
}

#[test]
fn mirrors() {
    let a = "#.##..##.\n..#.##.#.\n##......#\n##......#\n..#.##.#.\n..##..##.\n#.#.##.#.";
    let b = "#...##..#\n#....#..#\n..##..###\n#####.##.\n#####.##.\n..##..###\n#....#..#";
    assert_eq!(mirror_score(a, false) + mirror_score(b, false), 405);
    assert_eq!(mirror_score(a, true) + mirror_score(b, true), 400);
    assert_eq!(row_to_u64(b"#.##"), 0b1011);
    assert_eq!(count_ones(0b1011_0001), 4);
}

#[test]
fn lens_library() {
    assert_eq!(hash(b"HASH"), 52);
    let steps_text = b"rn=1,cm-,qp=3,cm=2,qp-,pc=4,ot=9,ab=5,pc-,pc=6,ot=7";
    let steps = split(steps_text, b',');
    assert_eq!(hash_total(&steps), 1320);
    let mut boxes: Vec<Vec<Lens>> = vec![Vec::new(); 256];
    for s in &steps {
        let op = parse_operation(s).unwrap();
        apply_operation(&mut boxes, &op);
    }
    assert_eq!(boxes[0], vec![(b"rn".to_vec(), 1), (b"cm".to_vec(), 2)]);
    assert_eq!(focusing_power(&boxes), Some(145));
    assert_eq!(parse_operation(b"ab=5"), Some(Operation::Insert(b"ab".to_vec(), 5)));
    assert_eq!(parse_operation(b"ab-"), Some(Operation::Remove(b"ab".to_vec())));
    assert_eq!(parse_operation(b"ab="), None);
    assert_eq!(parse_operation(b"=5"), None);
}

#[test]
fn text_helpers() {
    let ls = lines(b"a\nbc\n\nd\n");
    assert_eq!(ls, vec![b"a".to_vec(), b"bc".to_vec(), vec![], b"d".to_vec()]);
    assert_eq!(lines(b"").len(), 0);
    assert_eq!(parse_number(b"x123y", 1), Some((123, 4)));
    assert_eq!(parse_number(b"99999999999999999999", 0), None);
    assert_eq!(parse_number_list(b"  1 22  333 ", 0), Some(vec![1, 22, 333]));
    assert_eq!(parse_number_list(b"1 2x", 0), None);
}

#[test]
fn signed_readings() {
    assert_eq!(parse_signed_list(b"10 -3 0 -9223372036854775808", 0), Some(vec![10, -3, 0, i64::MIN]));
    assert_eq!(parse_signed_list(b"1 - 2", 0), None);
    assert_eq!(parse_signed_list(b"9223372036854775808", 0), None);
}

#[test]
fn whole_puzzles() {
    let games = b"Game 1: 3 blue, 4 red; 1 red, 2 green, 6 blue; 2 green
Game 2: 1 blue, 2 green; 3 green, 4 blue, 1 red; 1 green, 1 blue
Game 3: 8 green, 6 blue, 20 red; 5 blue, 4 red, 13 green; 5 green, 1 red
Game 4: 1 green, 3 red, 6 blue; 3 green, 6 red; 3 green, 15 blue, 14 red
Game 5: 6 red, 1 blue, 3 green; 2 blue, 1 red, 2 green
";
    assert_eq!(advent::cubes::solve(games), Some((8, 2286)));
    assert_eq!(advent::cubes::solve(b"Game 1: 3 purple\n"), None);
    assert_eq!(advent::calibration::solve(b"1abc2\ntreb7uchet\n"), (89, 89));
    let image = b"...#......\n.......#..\n#.........\n..........\n......#...\n.#........\n.........#\n..........\n.......#..\n#...#.....\n";
    assert_eq!(advent::galaxies::solve(image), Some((374, 82000210)));
    assert_eq!(advent::galaxies::solve(b"..\n.\n"), None);
    let rows = b"???.### 1,1,3\n.??..??...?##. 1,1,3\n?#?#?#?#?#?#?#? 1,3,1,6\n????.#...#... 4,1,1\n????.######..#####. 1,6,5\n?###???????? 3,2,1\n";
    assert_eq!(advent::springs::solve(rows), Some((21, 525152)));
    let patterns = b"#.##..##.\n..#.##.#.\n##......#\n##......#\n..#.##.#.\n..##..##.\n#.#.##.#.\n\n#...##..#\n#....#..#\n..##..###\n#####.##.\n#####.##.\n..##..###\n#....#..#\n";
    assert_eq!(advent::mirrors::solve(patterns), Some((405, 400)));
    assert_eq!(advent::pipes::solve(b".....\n.S-7.\n.|.|.\n.L-J.\n.....\n"), Some((4, 1)));
    assert_eq!(advent::pipes::solve(b"..F7.\n.FJ|.\nSJ.L7\n|F--J\nLJ...\n"), Some((8, 1)));
    assert_eq!(advent::pipes::solve(b"...\n...\n"), None);
}

#[test]
fn more_whole_puzzles() {
    let cards = b"Card 1: 41 48 83 86 17 | 83 86  6 31 17  9 48 53
Card 2: 13 32 20 16 61 | 61 30 68 82 17 32 24 19
Card 3:  1 21 53 59 44 | 69 82 63 72 16 21 14  1
Card 4: 41 92 73 84 69 | 59 84 76 51 58  5 54 83
Card 5: 87 83 26 28 32 | 88 30 70 12 93 22 82 36
Card 6: 31 18 13 56 72 | 74 77 10 23 35 67 36 11
";
    assert_eq!(advent::cards::solve(cards), Some((13, 30)));
    assert_eq!(advent::races::solve(b"Time:      7  15   30\nDistance:  9  40  200\n"), Some((288, 71503)));
    assert_eq!(advent::races::solve(b"Time: 7\n"), None);
    assert_eq!(advent::hands::solve(b"32T3K 765\nT55J5 684\nKK677 28\nKTJJT 220\nQQQJA 483\n"), Some((6440, 5905)));
    assert_eq!(advent::hands::solve(b"32T3 765\n"), None);
    assert_eq!(advent::sequences::solve(b"0 3 6 9 12 15\n1 3 6 10 15 21\n10 13 16 21 30 45\n"), Some((114, 2)));
    let platform = b"O....#....\nO.OO#....#\n.....##...\nOO.#O....O\n.O.....O#.\nO.#..O.#.#\n..O..#O..O\n.......O..\n#....###..\n#OO..#....\n";
    assert_eq!(advent::rocks::solve(platform, 100_000), Some((136, 64)));
    assert_eq!(advent::rocks::solve(b"O.\n.\n", 10), None);
}

#[test]
fn schematic_and_lenses_puzzles() {
    let schematic = b"467..114..\n...*......\n..35..633.\n......#...\n617*......\n.....+.58.\n..592.....\n......755.\n...$.*....\n.664.598..\n";
    assert_eq!(advent::schematic::solve(schematic), Some((4361, 467835)));
    assert_eq!(advent::lenses::solve(b"rn=1,cm-,qp=3,cm=2,qp-,pc=4,ot=9,ab=5,pc-,pc=6,ot=7\n"), Some((1320, 145)));
    assert_eq!(advent::lenses::solve(b"rn=1,=\n"), None);
}

#[test]
fn crlf_lines_and_zero_factors() {
    assert_eq!(lines(b"ab\r\ncd\r\n"), vec![b"ab".to_vec(), b"cd".to_vec()]);
    assert_eq!(lines(b"ab\r"), vec![b"ab\r".to_vec()]);
    assert_eq!(advent::calibration::solve(b"1abc2\r\ntreb7uchet\r\n"), (89, 89));
    assert_eq!(advent::network::prime_factors(0), Vec::<u64>::new());
    assert_eq!(advent::network::prime_factors(1), Vec::<u64>::new());
    assert_eq!(advent::rocks::solve(b"O#\n.O\n", 0), None);
    assert!(advent::rocks::solve(b"O#\n.O\n", 100).is_some());
}
