use advent::springs::{parse_row, Row, Spring};

fn runs(cells: &[bool]) -> Vec<usize> {
    let mut out = Vec::new();
    let mut cur = 0;
    for &c in cells {
        if c {
            cur += 1;
        } else if cur > 0 {
            out.push(cur);
            cur = 0;
        }
    }
    if cur > 0 {
        out.push(cur);
    }
    out
}

fn brute_force(row: &Row) -> u64 {
    let unknown: Vec<usize> = (0..row.springs.len()).filter(|&i| row.springs[i] == Spring::Unknown).collect();
    let mut count = 0;
    for mask in 0u64..(1u64 << unknown.len()) {
        let mut cells: Vec<bool> = row.springs.iter().map(|s| *s == Spring::Damaged).collect();
        for (bit, &i) in unknown.iter().enumerate() {
            cells[i] = mask & (1 << bit) != 0;
        }
        if runs(&cells) == row.groups {
            count += 1;
        }
    }
    count
}

fn row(text: &str) -> Row {
    parse_row(text.as_bytes()).unwrap()
}

#[test]
fn example_rows() {
    assert_eq!(row("???.### 1,1,3").count_possibilities(), Some(1));
    assert_eq!(row(".??..??...?##. 1,1,3").count_possibilities(), Some(4));
    assert_eq!(row("?#?#?#?#?#?#?#? 1,3,1,6").count_possibilities(), Some(1));
    assert_eq!(row("????.#...#... 4,1,1").count_possibilities(), Some(1));
    assert_eq!(row("????.######..#####. 1,6,5").count_possibilities(), Some(4));
    assert_eq!(row("?###???????? 3,2,1").count_possibilities(), Some(10));
}

#[test]
fn pattern_with_groups_one_one_three() {
    let r = row("????.#...#... 1,1,3");
    assert_eq!(r.count_possibilities(), Some(brute_force(&r)));
    assert_eq!(r.count_possibilities(), Some(0));
}

#[test]
fn memoized_count_matches_brute_force() {
    let cases = [
        "???.### 1,1,3",
        ".??..??...?##. 1,1,3",
        "?#?#?#?#?#?#?#? 1,3,1,6",
        "????.#...#... 4,1,1",
        "????.######..#####. 1,6,5",
        "?###???????? 3,2,1",
        "?????????????????? 2,1,3",
        "??????????????????? 1,1,1,1",
        "#??.??#?.?# 1,2,1",
        "...... 1",
    ];
    for c in cases {
        let r = row(c);
        assert_eq!(r.count_possibilities(), Some(brute_force(&r)), "{}", c);
    }
}

#[test]
fn unfolded_rows() {
    assert_eq!(row("???.### 1,1,3").unfold().count_possibilities(), Some(1));
    assert_eq!(row(".??..??...?##. 1,1,3").unfold().count_possibilities(), Some(16384));
    assert_eq!(row("?###???????? 3,2,1").unfold().count_possibilities(), Some(506250));
}

#[test]
fn unfold_shape() {
    let r = row("#. 1");
    let u = r.unfold();
    assert_eq!(u.springs.len(), 2 * 5 + 4);
    assert_eq!(u.springs[2], Spring::Unknown);
    assert_eq!(u.groups, vec![1, 1, 1, 1, 1]);
    let once = r.count_possibilities().unwrap();
    let unfolded = u.count_possibilities().unwrap();
    assert!(unfolded >= once);
}

#[test]
fn spring_characters() {
    assert_eq!(Spring::try_from('.'), Ok(Spring::Working));
    assert_eq!(Spring::try_from('#'), Ok(Spring::Damaged));
    assert_eq!(Spring::try_from('?'), Ok(Spring::Unknown));
    assert_eq!(Spring::try_from('x'), Err(()));
    assert!(parse_row(b"#x# 1").is_none());
    assert!(parse_row(b"### ").is_none());
}

#[test]
fn empty_cells_need_no_groups() {
    let r = Row { springs: vec![], groups: vec![] };
    assert_eq!(r.count_possibilities(), Some(1));
    let r = Row { springs: vec![], groups: vec![1] };
    assert_eq!(r.count_possibilities(), Some(0));
}
