use advent::intervals::{flatten_all, lowest_location, lowest_location_in_ranges, parse_map, parse_map_header, parse_range, parse_seeds, ranges_apart, Day5Map, Range, DOMAIN_END};
use advent::text::{blocks, lines};

const ALMANAC: &str = "seeds: 79 14 55 13

seed-to-soil map:
50 98 2
52 50 48

soil-to-fertilizer map:
0 15 37
37 52 2
39 0 15

fertilizer-to-water map:
49 53 8
0 11 42
42 0 7
57 7 4

water-to-light map:
88 18 7
18 25 70

light-to-temperature map:
45 77 23
81 45 19
68 64 13

temperature-to-humidity map:
0 69 1
1 0 69

humidity-to-location map:
60 56 37
56 93 4
";

fn lookup(m: &Day5Map, v: i64) -> i64 {
    let r = m.range_for(v);
    r.map_value(v).unwrap()
}

fn read_almanac(text: &str) -> (Vec<i64>, Vec<Day5Map>) {
    let parts = blocks(&lines(text.as_bytes()));
    let seeds = parse_seeds(&parts[0][0]).unwrap();
    let mut maps = Vec::new();
    for part in &parts[1..] {
        let (a, b) = parse_map_header(&part[0]).unwrap();
        let from = String::from_utf8(part[0][..a].to_vec()).unwrap();
        let to = String::from_utf8(part[0][a + 4..b].to_vec()).unwrap();
        maps.push(parse_map(from, to, &part[1..].to_vec()).unwrap());
    }
    (seeds, maps)
}

fn assert_covering(m: &Day5Map) {
    assert_eq!(m.ranges[0].start, 0);
    for w in m.ranges.windows(2) {
        assert_eq!(w[0].start + w[0].length, w[1].start);
    }
    let last = m.ranges.last().unwrap();
    assert_eq!(last.start + last.length, DOMAIN_END);
}

#[test]
fn normalized_example_maps_seeds() {
    let ranges = vec![
        Range { start: 98, length: 2, shift: -48 },
        Range { start: 50, length: 48, shift: 2 },
    ];
    let m = Day5Map::new("seed".to_string(), "soil".to_string(), ranges);
    assert_covering(&m);
    assert_eq!(lookup(&m, 79), 81);
    assert_eq!(lookup(&m, 14), 14);
    assert_eq!(lookup(&m, 55), 57);
    assert_eq!(lookup(&m, 13), 13);
    assert_eq!(lookup(&m, 98), 50);
    assert_eq!(lookup(&m, 99), 51);
    assert_eq!(lookup(&m, 100), 100);
}

#[test]
fn gap_of_one_is_filled() {
    let ranges = vec![
        Range { start: 0, length: 5, shift: 1 },
        Range { start: 6, length: 4, shift: 2 },
    ];
    let m = Day5Map::new("a".to_string(), "b".to_string(), ranges);
    assert_covering(&m);
    assert_eq!(lookup(&m, 5), 5);
    assert_eq!(lookup(&m, 4), 5);
    assert_eq!(lookup(&m, 6), 8);
}

#[test]
fn every_value_has_exactly_one_range() {
    let (_, maps) = read_almanac(ALMANAC);
    for m in &maps {
        assert_covering(m);
        for v in 0..120i64 {
            let n = m.ranges.iter().filter(|r| r.start <= v && v < r.start + r.length).count();
            assert_eq!(n, 1);
        }
    }
}

#[test]
fn range_for_gives_the_holding_range() {
    let (_, maps) = read_almanac(ALMANAC);
    let r = maps[0].range_for(60);
    assert!(r.start <= 60 && 60 < r.start + r.length);
    assert_eq!(r.shift, 2);
    assert_eq!(Range::empty().end(), DOMAIN_END);
    assert_eq!(Range { start: 3, length: 2, shift: 10 }.map_value(4), Some(14));
    assert_eq!(Range { start: 3, length: 2, shift: 10 }.map_value(5), None);
}

#[test]
fn flattening_is_associative_on_samples() {
    let (_, maps) = read_almanac(ALMANAC);
    let (a, b, c) = (&maps[0], &maps[1], &maps[2]);
    let ab = a.flatten(b);
    let ab_c = ab.flatten(c);
    let bc = b.flatten(c);
    let a_bc = a.flatten(&bc);
    assert_covering(&ab_c);
    assert_covering(&a_bc);
    for v in 0..150i64 {
        let step = lookup(c, lookup(b, lookup(a, v)));
        assert_eq!(lookup(&ab_c, v), step);
        assert_eq!(lookup(&a_bc, v), step);
    }
}

#[test]
fn almanac_lowest_locations() {
    let (seeds, maps) = read_almanac(ALMANAC);
    let flat = flatten_all(&"seed".to_string(), &maps).unwrap();
    assert_eq!(flat.to, "location");
    assert_eq!(lowest_location(&flat, &seeds), Some(35));
    assert_eq!(lowest_location_in_ranges(&flat, &seeds), Some(46));
}

#[test]
fn seed_ranges_match_brute_force() {
    let (seeds, maps) = read_almanac(ALMANAC);
    let flat = flatten_all(&"seed".to_string(), &maps).unwrap();
    let mut best = i64::MAX;
    for pair in seeds.chunks(2) {
        for v in pair[0]..pair[0] + pair[1] {
            best = best.min(lookup(&flat, v));
        }
    }
    assert_eq!(lowest_location_in_ranges(&flat, &seeds), Some(best));
}

#[test]
fn unlinked_pipeline_is_refused() {
    let (_, maps) = read_almanac(ALMANAC);
    assert!(flatten_all(&"soil".to_string(), &maps).is_none());
    assert!(lowest_location(&maps[0], &vec![]).is_none());
}

#[test]
fn overlapping_ranges_are_refused() {
    let ranges = vec![
        Range { start: 0, length: 5, shift: 1 },
        Range { start: 4, length: 4, shift: 2 },
    ];
    assert!(!ranges_apart(&ranges));
    let body = vec![b"1 0 5".to_vec(), b"9 4 4".to_vec()];
    assert!(parse_map("a".to_string(), "b".to_string(), &body).is_none());
    assert!(parse_range(b"1 2").is_none());
    assert_eq!(parse_range(b"50 98 2"), Some(Range { start: 98, length: 2, shift: -48 }));
}

#[test]
fn almanac_blocks() {
    let parts = blocks(&lines(ALMANAC.as_bytes()));
    assert_eq!(parts.len(), 8);
    assert_eq!(parts[1].len(), 3);
    assert_eq!(parts[1][0], b"seed-to-soil map:".to_vec());
    assert_eq!(parse_map_header(b"seed-to-soil map:"), Some((4, 12)));
    assert!(parse_map_header(b"seed-soil map:").is_none());
}
