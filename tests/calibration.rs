use advent::calibration::{calibration_sum, first, last, part1_value, part2_value, text_digit};

#[test]
fn digits_of_treb7uchet() {
    assert_eq!(first(b"treb7uchet", false), Some(7));
    assert_eq!(last(b"treb7uchet", false), Some(7));
    assert_eq!(part1_value(b"treb7uchet"), 77);
}

#[test]
fn decimal_values() {
    assert_eq!(part1_value(b"1abc2"), 12);
    assert_eq!(part1_value(b"pqr3stu8vwx"), 38);
    assert_eq!(part1_value(b"a1b2c3d4e5f"), 15);
    assert_eq!(part1_value(b"nodigits"), 0);
    assert_eq!(calibration_sum(b"1abc2\npqr3stu8vwx\na1b2c3d4e5f\ntreb7uchet\n", false), 142);
}

#[test]
fn spelled_values() {
    assert_eq!(part2_value(b"two1nine"), 29);
    assert_eq!(part2_value(b"eightwothree"), 83);
    assert_eq!(part2_value(b"abcone2threexyz"), 13);
    assert_eq!(part2_value(b"xtwone3four"), 24);
    assert_eq!(part2_value(b"4nineeightseven2"), 42);
    assert_eq!(part2_value(b"zoneight234"), 14);
    assert_eq!(part2_value(b"7pqrstsixteen"), 76);
    assert_eq!(part2_value(b"oneight"), 18);
    assert_eq!(part2_value(b"none"), 11);
    assert_eq!(part2_value(b""), 0);
    let text = b"two1nine\neightwothree\nabcone2threexyz\nxtwone3four\n4nineeightseven2\nzoneight234\n7pqrstsixteen";
    assert_eq!(calibration_sum(text, true), 281);
}

#[test]
fn digit_names() {
    assert_eq!(text_digit(b"xseven", 1), Some(7));
    assert_eq!(text_digit(b"seve", 0), None);
    assert_eq!(text_digit(b"nine", 0), Some(9));
}
