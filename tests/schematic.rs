use advent::schematic::{gear_ratio_sum, part_number_sum, scan_line, Cell, Number};

const SCHEMATIC: &str = "467..114..
...*......
..35..633.
......#...
617*......
.....+.58.
..592.....
......755.
...$.*....
.664.598..";

#[test]
fn example_schematic() {
    let mut numbers = Vec::new();
    let mut symbols = Vec::new();
    for (row, line) in SCHEMATIC.lines().enumerate() {
        let (ns, ss) = scan_line(line.as_bytes(), row as u64).unwrap();
        numbers.extend(ns);
        symbols.extend(ss);
    }
    assert_eq!(numbers.len(), 10);
    assert_eq!(symbols.len(), 6);
    assert_eq!(part_number_sum(&numbers, &symbols), Some(4361));
    assert_eq!(gear_ratio_sum(&numbers, &symbols), Some(467835));
}

#[test]
fn cells_around() {
    let around = Cell { row: 0, col: 0 }.adjacent_cells();
    assert_eq!(around.len(), 3);
    let around = Cell { row: 2, col: 2 }.adjacent_cells();
    assert_eq!(around.len(), 8);
    let n = Number { cell: Cell { row: 1, col: 4 }, len: 3, value: 123 };
    assert_eq!(n.occupied_cells(), vec![Cell { row: 1, col: 4 }, Cell { row: 1, col: 5 }, Cell { row: 1, col: 6 }]);
}
