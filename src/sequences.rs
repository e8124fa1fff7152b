//! Extrapolating a sequence of readings forward and backward through repeated differences.

use vstd::prelude::*;
use crate::text::{digits_end, digits_value, parse_number, skip_spaces, spaces_end};

verus! {

pub open spec fn in_i64(v: int) -> bool {
    i64::MIN <= v <= i64::MAX
}

/// The differences between neighbouring readings.
pub open spec fn diffs(s: Seq<int>) -> Seq<int> {
    Seq::new((if s.len() == 0 { 0 } else { s.len() - 1 }) as nat, |i: int| s[i + 1] - s[i])
}

pub open spec fn all_zero(s: Seq<int>) -> bool {
    forall|i: int| 0 <= i < s.len() ==> s[i] == 0
}

/// The next reading: the last reading plus the next difference, until the differences are all
/// zero.
pub open spec fn next_value(s: Seq<int>) -> int
    decreases s.len(),
{
    if all_zero(s) {
        0
    } else {
        s.last() + next_value(diffs(s))
    }
}

/// The reading before the first: the first reading minus the difference before the first.
pub open spec fn prev_value(s: Seq<int>) -> int
    decreases s.len(),
{
    if all_zero(s) {
        0
    } else {
        s[0] - prev_value(diffs(s))
    }
}

/// Every difference and every partial result on the way to both predictions fits in `i64`.
pub open spec fn fits(s: Seq<int>) -> bool
    decreases s.len(),
{
    if all_zero(s) {
        true
    } else {
        &&& forall|i: int| 0 <= i < s.len() - 1 ==> in_i64(#[trigger] diffs(s)[i])
        &&& fits(diffs(s))
        &&& in_i64(s.last() + next_value(diffs(s)))
        &&& in_i64(s[0] - prev_value(diffs(s)))
    }
}

pub open spec fn ints(s: Seq<i64>) -> Seq<int> {
    s.map_values(|v: i64| v as int)
}

/// The differences between neighbouring readings; `None` where one does not fit in `i64`.
pub fn difference_of_steps(steps: &[i64]) -> (r: Option<Vec<i64>>)
    ensures
        r.is_some() <==> forall|i: int| 0 <= i < steps@.len() - 1 ==> in_i64(#[trigger] diffs(ints(steps@))[i]),
        r matches Some(v) ==> ints(v@) == diffs(ints(steps@)),
{
    let mut out: Vec<i64> = Vec::new();
    if steps.len() == 0 {
        assert(ints(out@) =~= diffs(ints(steps@)));
        return Some(out);
    }
    let mut i: usize = 0;
    while i + 1 < steps.len()
        invariant
            steps.len() >= 1,
            i + 1 <= steps.len(),
            out.len() == i,
            forall|k: int| 0 <= k < i ==> (#[trigger] out@[k]) as int == diffs(ints(steps@))[k],
            forall|k: int| 0 <= k < i ==> in_i64(#[trigger] diffs(ints(steps@))[k]),
        decreases steps.len() - i,
    {
        let a = steps[i] as i128;
        let b = steps[i + 1] as i128;
        let d = b - a;
        assert(d == diffs(ints(steps@))[i as int]);
        if d < i64::MIN as i128 || d > i64::MAX as i128 {
            return None;
        }
        out.push(d as i64);
        i += 1;
    }
    assert(ints(out@) =~= diffs(ints(steps@)));
    Some(out)
}

fn all_zero_exec(s: &[i64]) -> (r: bool)
    ensures
        r == all_zero(ints(s@)),
{
    let mut i: usize = 0;
    while i < s.len()
        invariant
            i <= s.len(),
            forall|k: int| 0 <= k < i ==> s@[k] == 0,
        decreases s.len() - i,
    {
        if s[i] != 0 {
            assert(ints(s@)[i as int] != 0);
            return false;
        }
        i += 1;
    }
    true
}

/// The next reading and the reading before the first; `None` where a step does not fit in
/// `i64`.
pub fn predict(readings: &[i64]) -> (r: Option<(i64, i64)>)
    ensures
        r == (if fits(ints(readings@)) {
            Some((next_value(ints(readings@)) as i64, prev_value(ints(readings@)) as i64))
        } else {
            None::<(i64, i64)>
        }),
        fits(ints(readings@)) ==> in_i64(next_value(ints(readings@))) && in_i64(
            prev_value(ints(readings@)),
        ),
    decreases readings@.len(),
{
    let ghost s = ints(readings@);
    if all_zero_exec(readings) {
        return Some((0, 0));
    }
    let d = match difference_of_steps(readings) {
        Some(d) => d,
        None => {
            return None;
        },
    };
    assert(readings@.len() > 0);
    assert(ints(d@).len() == d@.len());
    assert(d@.len() < readings@.len());
    let (n, p) = match predict(d.as_slice()) {
        Some(x) => x,
        None => {
            return None;
        },
    };
    let last = readings[readings.len() - 1] as i128 + n as i128;
    let first = readings[0] as i128 - p as i128;
    assert(s.last() == readings@[readings.len() - 1]);
    if last < i64::MIN as i128 || last > i64::MAX as i128 || first < i64::MIN as i128 || first
        > i64::MAX as i128 {
        return None;
    }
    Some((last as i64, first as i64))
}

/// Sum of the predictions of each history; `None` where one does not fit in `i64`.
pub open spec fn prediction_sums(hs: Seq<Seq<int>>) -> Option<(int, int)>
    decreases hs.len(),
{
    if hs.len() == 0 {
        Some((0, 0))
    } else {
        match prediction_sums(hs.drop_last()) {
            Some((a, b)) => if fits(hs.last()) && in_i64(a + next_value(hs.last())) && in_i64(
                b + prev_value(hs.last()),
            ) {
                Some((a + next_value(hs.last()), b + prev_value(hs.last())))
            } else {
                None
            },
            None => None,
        }
    }
}

/// Sums of the next readings and of the readings before the first over all histories.
pub fn predict_all(histories: &Vec<Vec<i64>>) -> (r: Option<(i64, i64)>)
    ensures
        r matches Some((a, b)) ==> prediction_sums(histories@.map_values(|h: Vec<i64>| ints(h@)))
            == Some((a as int, b as int)),
        r.is_none() ==> prediction_sums(histories@.map_values(|h: Vec<i64>| ints(h@))).is_none(),
{
    let ghost hs = histories@.map_values(|h: Vec<i64>| ints(h@));
    let mut a: i64 = 0;
    let mut b: i64 = 0;
    let mut i: usize = 0;
    while i < histories.len()
        invariant
            i <= histories.len(),
            hs == histories@.map_values(|h: Vec<i64>| ints(h@)),
            prediction_sums(hs.take(i as int)) == Some((a as int, b as int)),
        decreases histories.len() - i,
    {
        assert(hs.take(i + 1).drop_last() == hs.take(i as int));
        assert(hs.take(i + 1).last() == ints(histories@[i as int]@));
        let (n, p) = match predict(histories[i].as_slice()) {
            Some(x) => x,
            None => {
                proof {
                    lemma_sums_none(hs, i + 1);
                }
                return None;
            },
        };
        let x = a as i128 + n as i128;
        let y = b as i128 + p as i128;
        if x < i64::MIN as i128 || x > i64::MAX as i128 || y < i64::MIN as i128 || y > i64::MAX
            as i128 {
            proof {
                lemma_sums_none(hs, i + 1);
            }
            return None;
        }
        a = x as i64;
        b = y as i64;
        i += 1;
    }
    assert(hs.take(histories.len() as int) == hs);
    Some((a, b))
}

pub proof fn lemma_sums_none(hs: Seq<Seq<int>>, k: int)
    requires
        0 <= k <= hs.len(),
        prediction_sums(hs.take(k)).is_none(),
    ensures
        prediction_sums(hs).is_none(),
    decreases hs.len() - k,
{
    if k < hs.len() {
        assert(hs.take(k + 1).drop_last() == hs.take(k));
        lemma_sums_none(hs, k + 1);
    } else {
        assert(hs.take(k) == hs);
    }
}

/// The numbers of a list separated by spaces, each written as digits with an optional leading
/// `-`, read from `pos` on: `None` where a token is not such a number or it does not fit in
/// `i64`.
pub open spec fn signed_list(s: Seq<u8>, pos: int) -> Option<Seq<i64>>
    decreases s.len() - pos,
{
    let p = spaces_end(s, pos);
    if pos < 0 || pos > s.len() {
        None
    } else if p >= s.len() {
        Some(Seq::empty())
    } else {
        let neg = s[p] == 0x2d;
        let d = if neg { p + 1 } else { p };
        let e = digits_end(s, d);
        let v: int = if neg { -digits_value(s.subrange(d, e)) } else { digits_value(s.subrange(d, e)) as int };
        if e <= d || p < pos || d > s.len() || e > s.len() || !in_i64(v) || (e < s.len() && s[e] != 0x20) {
            None
        } else {
            match signed_list(s, e) {
                Some(rest) => Some(seq![v as i64] + rest),
                None => None,
            }
        }
    }
}

/// Reads a list of signed numbers separated by spaces from `pos` on.
pub fn parse_signed_list(s: &[u8], pos: usize) -> (r: Option<Vec<i64>>)
    requires
        pos <= s.len(),
    ensures
        r matches Some(v) ==> signed_list(s@, pos as int) == Some(v@),
        r.is_none() ==> signed_list(s@, pos as int).is_none(),
    decreases s.len() - pos,
{
    let p = skip_spaces(s, pos);
    if p >= s.len() {
        return Some(Vec::new());
    }
    let neg = s[p] == 0x2d;
    let d = if neg {
        p + 1
    } else {
        p
    };
    proof {
        crate::text::lemma_digits_end(s@, d as int);
    }
    let (mag, e) = match parse_number(s, d) {
        Some(x) => x,
        None => {
            return None;
        },
    };
    if e < s.len() && s[e] != 0x20 {
        return None;
    }
    let v: i64 = if neg {
        if mag > 0x8000_0000_0000_0000u64 {
            return None;
        }
        (0i128 - mag as i128) as i64
    } else {
        if mag > i64::MAX as u64 {
            return None;
        }
        mag as i64
    };
    match parse_signed_list(s, e) {
        Some(rest) => {
            let mut out: Vec<i64> = Vec::new();
            out.push(v);
            let mut i: usize = 0;
            while i < rest.len()
                invariant
                    i <= rest.len(),
                    out@ == seq![v] + rest@.take(i as int),
                decreases rest.len() - i,
            {
                out.push(rest[i]);
                i += 1;
                assert(rest@.take(i as int) == rest@.take(i - 1).push(rest@[i - 1]));
            }
            assert(rest@.take(rest.len() as int) == rest@);
            Some(out)
        },
        None => None,
    }
}

/// The histories of `ls`, one per line, or `None` where a line does not read.
pub open spec fn histories_of(ls: Seq<Seq<u8>>) -> Option<Seq<Seq<int>>>
    decreases ls.len(),
{
    if ls.len() == 0 {
        Some(Seq::empty())
    } else {
        match (histories_of(ls.drop_last()), signed_list(ls.last(), 0)) {
            (Some(hs), Some(h)) => Some(hs.push(ints(h))),
            _ => None,
        }
    }
}

/// Both answers for the histories of `input`, one per line: the sums of the next readings and
/// of the readings before the first.
pub fn solve(input: &[u8]) -> (r: Option<(i64, i64)>)
    ensures
        r matches Some((a, b)) ==> histories_of(crate::text::lines_of(input@)) matches Some(hs)
            && prediction_sums(hs) == Some((a as int, b as int)),
        r.is_some() <==> (histories_of(crate::text::lines_of(input@)) matches Some(hs) && prediction_sums(
            hs,
        ).is_some()),
{
    let ls = crate::text::lines(input);
    let ghost lv = ls@.map_values(|v: Vec<u8>| v@);
    assert(lv == crate::text::lines_of(input@));
    let mut histories: Vec<Vec<i64>> = Vec::new();
    let mut i: usize = 0;
    while i < ls.len()
        invariant
            i <= ls.len(),
            lv == ls@.map_values(|v: Vec<u8>| v@),
            histories_of(lv.take(i as int)) == Some(histories@.map_values(|h: Vec<i64>| ints(h@))),
            lv == crate::text::lines_of(input@),
        decreases ls.len() - i,
    {
        assert(lv.take(i + 1).drop_last() == lv.take(i as int));
        assert(lv.take(i + 1).last() == ls@[i as int]@);
        let h = match parse_signed_list(ls[i].as_slice(), 0) {
            Some(h) => h,
            None => {
                proof {
                    lemma_histories_none(lv, i + 1);
                }
                return None;
            },
        };
        let ghost before = histories@.map_values(|h: Vec<i64>| ints(h@));
        histories.push(h);
        assert(histories@.map_values(|h: Vec<i64>| ints(h@)) =~= before.push(ints(h@)));
        i += 1;
    }
    assert(lv.take(ls.len() as int) == lv);
    predict_all(&histories)
}

pub proof fn lemma_histories_none(ls: Seq<Seq<u8>>, k: int)
    requires
        0 <= k <= ls.len(),
        histories_of(ls.take(k)).is_none(),
    ensures
        histories_of(ls).is_none(),
    decreases ls.len() - k,
{
    if k < ls.len() {
        assert(ls.take(k + 1).drop_last() == ls.take(k));
        lemma_histories_none(ls, k + 1);
    } else {
        assert(ls.take(k) == ls);
    }
}

} // verus!
