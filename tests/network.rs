use advent::network::{add_to_soup, build_table, name_code, parse_direction, parse_node, prime_factors, product_of, walk, Direction, Goal};

fn network(text: &str) -> (Vec<Direction>, advent::network::NodeMap, Vec<u64>) {
    let ls: Vec<&str> = text.lines().collect();
    let dirs: Vec<Direction> = ls[0].bytes().map(|b| parse_direction(b).unwrap()).collect();
    let nodes: Vec<(u64, u64, u64)> = ls[2..].iter().map(|l| parse_node(l.as_bytes()).unwrap()).collect();
    let origins = nodes.iter().map(|n| n.0).collect();
    (dirs, build_table(&nodes), origins)
}

#[test]
fn walks_to_zzz() {
    let (d, m, _) = network("RL\n\nAAA = (BBB, CCC)\nBBB = (DDD, EEE)\nCCC = (ZZZ, GGG)\nDDD = (DDD, DDD)\nEEE = (EEE, EEE)\nGGG = (GGG, GGG)\nZZZ = (ZZZ, ZZZ)");
    let zzz = name_code(b"ZZZ").unwrap();
    assert_eq!(walk(&m, &d, name_code(b"AAA").unwrap(), Goal::Exactly(zzz), 1000), Some((zzz, 2)));
    let (d, m, _) = network("LLR\n\nAAA = (BBB, BBB)\nBBB = (AAA, ZZZ)\nZZZ = (ZZZ, ZZZ)");
    assert_eq!(walk(&m, &d, name_code(b"AAA").unwrap(), Goal::Exactly(zzz), 1000), Some((zzz, 6)));
}

#[test]
fn ghosts_meet_after_least_common_multiple() {
    let (d, m, origins) = network("LR\n\n11A = (11B, XXX)\n11B = (XXX, 11Z)\n11Z = (11B, XXX)\n22A = (22B, XXX)\n22B = (22C, 22C)\n22C = (22Z, 22Z)\n22Z = (22B, 22B)\nXXX = (XXX, XXX)");
    let mut soup = Vec::new();
    for o in origins.into_iter().filter(|o| o % 256 == b'A' as u64) {
        let (end, _) = walk(&m, &d, o, Goal::EndsWith(b'Z'), 1000).unwrap();
        let (_, period) = walk(&m, &d, end, Goal::Exactly(end), 1000).unwrap();
        add_to_soup(&mut soup, &prime_factors(period));
    }
    assert_eq!(product_of(&soup), Some(6));
}

#[test]
fn factors() {
    assert_eq!(prime_factors(360), vec![2, 2, 2, 3, 3, 5]);
    assert_eq!(prime_factors(1), Vec::<u64>::new());
    assert_eq!(prime_factors(97), vec![97]);
    let mut soup = vec![2, 3];
    add_to_soup(&mut soup, &vec![2, 2, 5]);
    soup.sort();
    assert_eq!(soup, vec![2, 2, 3, 5]);
}

#[test]
fn node_lines() {
    assert_eq!(parse_node(b"AB = (C, D)"), Some((0x4142, 0x43, 0x44)));
    assert_eq!(parse_node(b"AB = (C, D"), None);
    assert_eq!(name_code(b"ZZZ"), Some(0x5a5a5a));
    assert_eq!(name_code(b""), None);
    assert_eq!(parse_direction(b'X'), None);
}

#[test]
fn walk_off_the_map() {
    let (d, m, _) = network("L\n\nAAA = (BBB, BBB)");
    assert_eq!(walk(&m, &d, name_code(b"AAA").unwrap(), Goal::Exactly(0), 10), None);
}
