//! Calibration values: the first and last digit of a line, written or spelled out.

use vstd::prelude::*;
use crate::text::{lines, lines_of};

verus! {

/// The spelled-out name of digit `d`, for `1 <= d <= 9`.
pub open spec fn word_spec(d: int) -> Seq<u8> {
    if d == 1 {
        seq![0x6fu8, 0x6e, 0x65]
    } else if d == 2 {
        seq![0x74u8, 0x77, 0x6f]
    } else if d == 3 {
        seq![0x74u8, 0x68, 0x72, 0x65, 0x65]
    } else if d == 4 {
        seq![0x66u8, 0x6f, 0x75, 0x72]
    } else if d == 5 {
        seq![0x66u8, 0x69, 0x76, 0x65]
    } else if d == 6 {
        seq![0x73u8, 0x69, 0x78]
    } else if d == 7 {
        seq![0x73u8, 0x65, 0x76, 0x65, 0x6e]
    } else if d == 8 {
        seq![0x65u8, 0x69, 0x67, 0x68, 0x74]
    } else {
        seq![0x6eu8, 0x69, 0x6e, 0x65]
    }
}

/// `s` holds `w` from index `i` on.
pub open spec fn starts_with_at(s: Seq<u8>, i: int, w: Seq<u8>) -> bool {
    0 <= i && i + w.len() <= s.len() && s.subrange(i, i + w.len()) == w
}

/// The lowest digit whose name starts at `i`, searching from `d` up.
pub open spec fn word_digit_from(s: Seq<u8>, i: int, d: int) -> Option<u8>
    decreases 10 - d,
{
    if d < 1 || d > 9 {
        None
    } else if starts_with_at(s, i, word_spec(d)) {
        Some(d as u8)
    } else {
        word_digit_from(s, i, d + 1)
    }
}

/// The digit that starts at index `i` of `s`: a decimal digit or, with `words`, a digit's name.
pub open spec fn digit_at(s: Seq<u8>, i: int, words: bool) -> Option<u8> {
    if 0 <= i < s.len() && 0x30 <= s[i] <= 0x39 {
        Some((s[i] - 0x30) as u8)
    } else if words {
        word_digit_from(s, i, 1)
    } else {
        None
    }
}

/// The first digit of `s` at or after index `i`.
pub open spec fn first_from(s: Seq<u8>, i: int, words: bool) -> Option<u8>
    decreases s.len() - i,
{
    if i < 0 || i >= s.len() {
        None
    } else if digit_at(s, i, words).is_some() {
        digit_at(s, i, words)
    } else {
        first_from(s, i + 1, words)
    }
}

/// The last digit of `s` that starts before index `i`.
pub open spec fn last_before(s: Seq<u8>, i: int, words: bool) -> Option<u8>
    decreases i,
{
    if i <= 0 || i > s.len() {
        None
    } else if digit_at(s, i - 1, words).is_some() {
        digit_at(s, i - 1, words)
    } else {
        last_before(s, i - 1, words)
    }
}

/// The calibration value of a line: ten times its first digit plus its last digit, where a
/// missing digit counts as zero.
pub open spec fn line_value(s: Seq<u8>, words: bool) -> nat {
    let f = match first_from(s, 0, words) {
        Some(d) => d as nat,
        None => 0,
    };
    let l = match last_before(s, s.len() as int, words) {
        Some(d) => d as nat,
        None => 0,
    };
    10 * f + l
}

fn word(d: u8) -> (r: Vec<u8>)
    requires
        1 <= d <= 9,
    ensures
        r@ == word_spec(d as int),
{
    let r = if d == 1 {
        vec![0x6fu8, 0x6e, 0x65]
    } else if d == 2 {
        vec![0x74u8, 0x77, 0x6f]
    } else if d == 3 {
        vec![0x74u8, 0x68, 0x72, 0x65, 0x65]
    } else if d == 4 {
        vec![0x66u8, 0x6f, 0x75, 0x72]
    } else if d == 5 {
        vec![0x66u8, 0x69, 0x76, 0x65]
    } else if d == 6 {
        vec![0x73u8, 0x69, 0x78]
    } else if d == 7 {
        vec![0x73u8, 0x65, 0x76, 0x65, 0x6e]
    } else if d == 8 {
        vec![0x65u8, 0x69, 0x67, 0x68, 0x74]
    } else {
        vec![0x6eu8, 0x69, 0x6e, 0x65]
    };
    assert(r@ =~= word_spec(d as int));
    r
}

fn starts_with(s: &[u8], i: usize, w: &Vec<u8>) -> (r: bool)
    ensures
        r == starts_with_at(s@, i as int, w@),
{
    if i > s.len() || w.len() > s.len() - i {
        return false;
    }
    let mut k: usize = 0;
    while k < w.len()
        invariant
            i + w.len() <= s.len(),
            k <= w.len(),
            forall|j: int| 0 <= j < k ==> s@[i + j] == w@[j],
        decreases w.len() - k,
    {
        if s[i + k] != w[k] {
            assert(s@.subrange(i as int, i + w.len())[k as int] != w@[k as int]);
            return false;
        }
        k += 1;
    }
    assert(s@.subrange(i as int, i + w.len()) =~= w@);
    true
}

/// The digit name that starts at index `i` of `s`.
pub fn text_digit(s: &[u8], i: usize) -> (r: Option<u8>)
    ensures
        r == word_digit_from(s@, i as int, 1),
{
    let mut d: u8 = 1;
    while d <= 9
        invariant
            1 <= d <= 10,
            word_digit_from(s@, i as int, 1) == word_digit_from(s@, i as int, d as int),
        decreases 10 - d,
    {
        if starts_with(s, i, &word(d)) {
            return Some(d);
        }
        d += 1;
    }
    None
}

/// The digit that starts at index `i` of `s`, reading digit names too when `words` is set.
pub fn digit_starting_at(s: &[u8], i: usize, words: bool) -> (r: Option<u8>)
    requires
        i < s.len(),
    ensures
        r == digit_at(s@, i as int, words),
{
    if 0x30 <= s[i] && s[i] <= 0x39 {
        Some(s[i] - 0x30)
    } else if words {
        text_digit(s, i)
    } else {
        None
    }
}

/// The first digit of the line.
pub fn first(s: &[u8], words: bool) -> (r: Option<u8>)
    ensures
        r == first_from(s@, 0, words),
{
    let mut i: usize = 0;
    while i < s.len()
        invariant
            i <= s.len(),
            first_from(s@, 0, words) == first_from(s@, i as int, words),
        decreases s.len() - i,
    {
        let d = digit_starting_at(s, i, words);
        if d.is_some() {
            return d;
        }
        i += 1;
    }
    None
}

/// The last digit of the line.
pub fn last(s: &[u8], words: bool) -> (r: Option<u8>)
    ensures
        r == last_before(s@, s@.len() as int, words),
{
    let mut i: usize = s.len();
    while i > 0
        invariant
            i <= s.len(),
            last_before(s@, s@.len() as int, words) == last_before(s@, i as int, words),
        decreases i,
    {
        let d = digit_starting_at(s, i - 1, words);
        if d.is_some() {
            return d;
        }
        i -= 1;
    }
    None
}

pub proof fn lemma_word_small(s: Seq<u8>, i: int, d: int)
    ensures
        word_digit_from(s, i, d) matches Some(x) ==> x <= 9,
    decreases 10 - d,
{
    if 1 <= d <= 9 {
        lemma_word_small(s, i, d + 1);
    }
}

pub proof fn lemma_digit_small(s: Seq<u8>, i: int, words: bool)
    ensures
        digit_at(s, i, words) matches Some(x) ==> x <= 9,
{
    lemma_word_small(s, i, 1);
}

pub proof fn lemma_first_small(s: Seq<u8>, i: int, words: bool)
    ensures
        first_from(s, i, words) matches Some(x) ==> x <= 9,
    decreases s.len() - i,
{
    lemma_digit_small(s, i, words);
    if 0 <= i < s.len() {
        lemma_first_small(s, i + 1, words);
    }
}

pub proof fn lemma_last_small(s: Seq<u8>, i: int, words: bool)
    ensures
        last_before(s, i, words) matches Some(x) ==> x <= 9,
    decreases i,
{
    lemma_digit_small(s, i - 1, words);
    if 0 < i <= s.len() {
        lemma_last_small(s, i - 1, words);
    }
}

fn value(s: &[u8], words: bool) -> (r: u8)
    ensures
        r == line_value(s@, words),
{
    proof {
        lemma_first_small(s@, 0, words);
        lemma_last_small(s@, s@.len() as int, words);
    }
    let f = match first(s, words) {
        Some(d) => d,
        None => 0,
    };
    let l = match last(s, words) {
        Some(d) => d,
        None => 0,
    };
    f * 10 + l
}

/// Ten times the first decimal digit plus the last one.
pub fn part1_value(s: &[u8]) -> (r: u8)
    ensures
        r == line_value(s@, false),
{
    value(s, false)
}

/// Ten times the first digit plus the last one, where a digit may be spelled out.
pub fn part2_value(s: &[u8]) -> (r: u8)
    ensures
        r == line_value(s@, true),
{
    value(s, true)
}

/// Sum of the calibration values of the lines.
pub open spec fn total(ls: Seq<Seq<u8>>, words: bool) -> nat
    decreases ls.len(),
{
    if ls.len() == 0 {
        0
    } else {
        total(ls.drop_last(), words) + line_value(ls.last(), words)
    }
}

/// Sum of the calibration values of the lines of `input`.
pub fn calibration_sum(input: &[u8], words: bool) -> (r: u64)
    requires
        input.len() <= u64::MAX / 100,
    ensures
        r == total(lines_of(input@), words),
{
    let ls = lines(input);
    let ghost m = ls@.map_values(|v: Vec<u8>| v@);
    let mut sum: u64 = 0;
    let mut i: usize = 0;
    proof {
        lemma_lines_count(input@);
    }
    while i < ls.len()
        invariant
            i <= ls.len(),
            m == ls@.map_values(|v: Vec<u8>| v@),
            m == lines_of(input@),
            ls.len() <= input.len() + 1,
            input.len() <= u64::MAX / 100,
            sum == total(m.take(i as int), words),
            sum <= 99 * i,
        decreases ls.len() - i,
    {
        assert(m.take(i + 1).drop_last() == m.take(i as int));
        assert(m[i as int] == ls@[i as int]@);
        let v = value(ls[i].as_slice(), words);
        proof {
            lemma_first_small(ls@[i as int]@, 0, words);
            lemma_last_small(ls@[i as int]@, ls@[i as int]@.len() as int, words);
        }
        sum = sum + v as u64;
        i += 1;
    }
    assert(m.take(ls.len() as int) == m);
    sum
}

/// There are at most one more lines than bytes.
pub proof fn lemma_lines_count(s: Seq<u8>)
    ensures
        lines_of(s).len() <= s.len() + 1,
{
    lemma_split_count(s);
    crate::text::lemma_split_nonempty(s, crate::text::NEWLINE);
}

proof fn lemma_split_count(s: Seq<u8>)
    ensures
        crate::text::split_on(s, crate::text::NEWLINE).len() <= s.len() + 1,
    decreases s.len(),
{
    if s.len() > 0 {
        lemma_split_count(s.drop_last());
        crate::text::lemma_split_nonempty(s.drop_last(), crate::text::NEWLINE);
    }
}

/// Both answers: the sum of the decimal calibration values and the sum with spelled digits.
pub fn solve(input: &[u8]) -> (r: (u64, u64))
    requires
        input.len() <= u64::MAX / 100,
    ensures
        r.0 == total(lines_of(input@), false),
        r.1 == total(lines_of(input@), true),
{
    (calibration_sum(input, false), calibration_sum(input, true))
}

} // verus!
