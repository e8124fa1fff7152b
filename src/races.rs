//! Boat races: how many ways there are to beat each record.

use vstd::prelude::*;
use crate::text::{has_at, number_list, parse_number_list, tag_at};

verus! {

/// A race: how long it lasts and the record distance.
#[derive(Debug, Clone, Copy, PartialEq, Eq, Structural)]
pub struct Race {
    pub time: u64,
    pub distance: u64,
}

/// Number of hold times below `n` that beat the record `d` in a race of `t`.
pub open spec fn wins(t: int, d: int, n: int) -> nat
    decreases n,
{
    if n <= 0 {
        0
    } else {
        wins(t, d, n - 1) + if (t - (n - 1)) * (n - 1) > d {
            1nat
        } else {
            0nat
        }
    }
}

impl Race {
    /// How far the boat goes when the button is held for `hold` of the race's time.
    pub fn distance_traveled(&self, hold: u64) -> (r: u128)
        requires
            hold <= self.time,
        ensures
            r == (self.time - hold) * hold,
    {
        let rest = (self.time - hold) as u128;
        assert(rest * (hold as u128) <= u64::MAX * u64::MAX) by (nonlinear_arith)
            requires
                rest <= u64::MAX,
                hold <= u64::MAX,
        ;
        rest * (hold as u128)
    }

    /// Number of hold times that beat the record.
    pub fn win_states(&self) -> (r: u64)
        ensures
            r == wins(self.time as int, self.distance as int, self.time as int),
    {
        let mut states: u64 = 0;
        let mut hold: u64 = 0;
        while hold < self.time
            invariant
                hold <= self.time,
                states == wins(self.time as int, self.distance as int, hold as int),
                states <= hold,
            decreases self.time - hold,
        {
            if self.distance_traveled(hold) > self.distance as u128 {
                states += 1;
            }
            hold += 1;
        }
        states
    }
}

/// Product of the numbers of ways to win each race.
pub open spec fn wins_product(races: Seq<Race>) -> nat
    decreases races.len(),
{
    if races.len() == 0 {
        1
    } else {
        wins_product(races.drop_last()) * wins(
            races.last().time as int,
            races.last().distance as int,
            races.last().time as int,
        )
    }
}

/// Product of the numbers of ways to win each race, or `None` when it does not fit in 64 bits.
pub fn win_product(races: &Vec<Race>) -> (r: Option<u64>)
    ensures
        r matches Some(p) ==> p == wins_product(races@),
        r.is_some() <==> prefixes_fit(races@),
{
    let mut product: u64 = 1;
    let mut i: usize = 0;
    while i < races.len()
        invariant
            i <= races.len(),
            product == wins_product(races@.take(i as int)),
            forall|k: int| 0 <= k <= i ==> #[trigger] wins_product(races@.take(k)) <= u64::MAX,
        decreases races.len() - i,
    {
        assert(races@.take(i + 1).drop_last() == races@.take(i as int));
        let w = races[i].win_states();
        match product.checked_mul(w) {
            Some(p) => {
                product = p;
            },
            None => {
                assert(wins_product(races@.take(i + 1)) > u64::MAX);
                return None;
            },
        }
        i += 1;
    }
    assert(races@.take(races.len() as int) == races@);
    Some(product)
}

/// The product over every first stretch of the races fits in 64 bits.
pub open spec fn prefixes_fit(races: Seq<Race>) -> bool {
    forall|k: int| 0 <= k <= races.len() ==> #[trigger] wins_product(races.take(k)) <= u64::MAX
}

/// Number of decimal digits of `n`.
pub open spec fn digit_count(n: nat) -> nat
    decreases n,
{
    if n < 10 {
        1
    } else {
        1 + digit_count(n / 10)
    }
}

pub open spec fn pow10(k: nat) -> nat
    decreases k,
{
    if k == 0 {
        1
    } else {
        10 * pow10((k - 1) as nat)
    }
}

/// The number whose decimal digits are those of `a` followed by those of `b`, or `None` when
/// it does not fit in 64 bits.
pub fn concat_digits(a: u64, b: u64) -> (r: Option<u64>)
    ensures
        r == (if a * pow10(digit_count(b as nat)) + b <= u64::MAX {
            Some((a * pow10(digit_count(b as nat)) + b) as u64)
        } else {
            None::<u64>
        }),
{
    let mut scale: u64 = 10;
    let mut rest: u64 = b / 10;
    let ghost mut k: nat = 1;
    assert(pow10(0) == 1);
    assert(pow10(1) == 10);
    while rest > 0
        invariant
            scale == pow10(k),
            digit_count(b as nat) == k + digit_count(rest as nat) - if rest == 0 {
                1nat
            } else {
                0nat
            },
            k >= 1,
        decreases rest,
    {
        assert(pow10(k + 1) == 10 * pow10(k));
        if scale > u64::MAX / 10 {
            // the scale no longer fits, and neither does the result unless `a` is zero
            assert(pow10(digit_count(b as nat)) >= pow10(k + 1)) by {
                lemma_pow10_mono(k + 1, digit_count(b as nat));
            }
            if a == 0 {
                assert(a * pow10(digit_count(b as nat)) == 0);
                return Some(b);
            }
            assert(a * pow10(digit_count(b as nat)) >= pow10(digit_count(b as nat))) by (nonlinear_arith)
                requires
                    a >= 1,
            ;
            return None;
        }
        scale = scale * 10;
        rest = rest / 10;
        proof {
            k = k + 1;
        }
    }
    assert(scale == pow10(digit_count(b as nat)));
    match a.checked_mul(scale) {
        Some(x) => x.checked_add(b),
        None => None,
    }
}

pub proof fn lemma_pow10_mono(i: nat, j: nat)
    requires
        i <= j,
    ensures
        pow10(i) <= pow10(j),
    decreases j,
{
    if i < j {
        lemma_pow10_mono(i, (j - 1) as nat);
        lemma_pow10_pos((j - 1) as nat);
    }
}

pub proof fn lemma_pow10_pos(i: nat)
    ensures
        pow10(i) >= 1,
    decreases i,
{
    if i > 0 {
        lemma_pow10_pos((i - 1) as nat);
    }
}

pub open spec fn time_tag() -> Seq<u8> {
    seq![0x54u8, 0x69, 0x6d, 0x65, 0x3a]
}

pub open spec fn distance_tag() -> Seq<u8> {
    seq![0x44u8, 0x69, 0x73, 0x74, 0x61, 0x6e, 0x63, 0x65, 0x3a]
}

/// The races whose times and records stand at the same places of `ts` and `ds`.
pub open spec fn zip_races(ts: Seq<u64>, ds: Seq<u64>) -> Seq<Race> {
    Seq::new(
        (if ts.len() < ds.len() { ts.len() } else { ds.len() }) as nat,
        |i: int| Race { time: ts[i], distance: ds[i] },
    )
}

/// Both lines read: `Time:` and `Distance:`, each followed by a list of numbers.
pub open spec fn races_read(time_line: Seq<u8>, distance_line: Seq<u8>) -> bool {
    &&& has_at(time_line, 0, time_tag())
    &&& has_at(distance_line, 0, distance_tag())
    &&& number_list(time_line, 5).is_some()
    &&& number_list(distance_line, 9).is_some()
}

/// Reads the two lines `Time: ...` and `Distance: ...` and pairs their numbers up.
pub fn parse_races(time_line: &[u8], distance_line: &[u8]) -> (r: Option<Vec<Race>>)
    ensures
        r.is_some() == races_read(time_line@, distance_line@),
        r matches Some(v) ==> v@ == zip_races(
            number_list(time_line@, 5)->Some_0,
            number_list(distance_line@, 9)->Some_0,
        ),
{
    let t: [u8; 5] = [0x54, 0x69, 0x6d, 0x65, 0x3a];
    let d: [u8; 9] = [0x44, 0x69, 0x73, 0x74, 0x61, 0x6e, 0x63, 0x65, 0x3a];
    assert(t@ =~= time_tag());
    assert(d@ =~= distance_tag());
    if !tag_at(time_line, 0, t.as_slice()) || !tag_at(distance_line, 0, d.as_slice()) {
        return None;
    }
    let times = match parse_number_list(time_line, 5) {
        Some(v) => v,
        None => {
            return None;
        },
    };
    let distances = match parse_number_list(distance_line, 9) {
        Some(v) => v,
        None => {
            return None;
        },
    };
    let n = if times.len() < distances.len() {
        times.len()
    } else {
        distances.len()
    };
    let mut races: Vec<Race> = Vec::new();
    let mut i: usize = 0;
    while i < n
        invariant
            i <= n,
            n <= times.len(),
            n <= distances.len(),
            races.len() == i,
            forall|k: int| 0 <= k < i ==> (#[trigger] races@[k]).time == times@[k] && races@[k].distance == distances@[k],
        decreases n - i,
    {
        races.push(Race { time: times[i], distance: distances[i] });
        i += 1;
    }
    assert(races@ =~= zip_races(times@, distances@));
    Some(races)
}

/// The number written by the decimal digits of `xs` one after another, or `None` when a step
/// does not fit in 64 bits.
pub open spec fn joined(xs: Seq<u64>) -> Option<u64>
    decreases xs.len(),
{
    if xs.len() == 0 {
        Some(0)
    } else {
        match joined(xs.drop_last()) {
            Some(t) => {
                let v = t * pow10(digit_count(xs.last() as nat)) + xs.last();
                if v <= u64::MAX {
                    Some(v as u64)
                } else {
                    None
                }
            },
            None => None,
        }
    }
}

fn join_digits(xs: &Vec<u64>) -> (r: Option<u64>)
    ensures
        r == joined(xs@),
{
    let mut t: u64 = 0;
    let mut i: usize = 0;
    while i < xs.len()
        invariant
            i <= xs.len(),
            joined(xs@.take(i as int)) == Some(t),
        decreases xs.len() - i,
    {
        assert(xs@.take(i + 1).drop_last() == xs@.take(i as int));
        match concat_digits(t, xs[i]) {
            Some(v) => {
                t = v;
            },
            None => {
                proof {
                    lemma_joined_none(xs@, i + 1);
                }
                return None;
            },
        }
        i += 1;
    }
    assert(xs@.take(xs.len() as int) == xs@);
    Some(t)
}

pub proof fn lemma_joined_none(xs: Seq<u64>, k: int)
    requires
        0 <= k <= xs.len(),
        joined(xs.take(k)).is_none(),
    ensures
        joined(xs).is_none(),
    decreases xs.len() - k,
{
    if k < xs.len() {
        assert(xs.take(k + 1).drop_last() == xs.take(k));
        lemma_joined_none(xs, k + 1);
    } else {
        assert(xs.take(k) == xs);
    }
}

/// Both answers for the two lines of races: the product of the numbers of ways to win each
/// race, and the number of ways to win the one race whose time and record are the numbers
/// read with the spaces between them left out.
pub fn solve(input: &[u8]) -> (r: Option<(u64, u64)>)
    ensures
        r matches Some((a, b)) ==> crate::text::lines_of(input@).len() >= 2 && races_read(
            crate::text::lines_of(input@)[0],
            crate::text::lines_of(input@)[1],
        ) && a == wins_product(
            zip_races(
                number_list(crate::text::lines_of(input@)[0], 5)->Some_0,
                number_list(crate::text::lines_of(input@)[1], 9)->Some_0,
            ),
        ) && joined(number_list(crate::text::lines_of(input@)[0], 5)->Some_0).is_some() && joined(
            number_list(crate::text::lines_of(input@)[1], 9)->Some_0,
        ).is_some() && b == wins(
            joined(number_list(crate::text::lines_of(input@)[0], 5)->Some_0)->Some_0 as int,
            joined(number_list(crate::text::lines_of(input@)[1], 9)->Some_0)->Some_0 as int,
            joined(number_list(crate::text::lines_of(input@)[0], 5)->Some_0)->Some_0 as int,
        ),
        r.is_some() <==> crate::text::lines_of(input@).len() >= 2 && races_read(
            crate::text::lines_of(input@)[0],
            crate::text::lines_of(input@)[1],
        ) && prefixes_fit(
            zip_races(
                number_list(crate::text::lines_of(input@)[0], 5)->Some_0,
                number_list(crate::text::lines_of(input@)[1], 9)->Some_0,
            ),
        ) && joined(number_list(crate::text::lines_of(input@)[0], 5)->Some_0).is_some() && joined(
            number_list(crate::text::lines_of(input@)[1], 9)->Some_0,
        ).is_some(),
{
    let ls = crate::text::lines(input);
    if ls.len() < 2 {
        return None;
    }
    assert(ls@.map_values(|v: Vec<u8>| v@)[0] == ls@[0]@);
    assert(ls@.map_values(|v: Vec<u8>| v@)[1] == ls@[1]@);
    let races = match parse_races(ls[0].as_slice(), ls[1].as_slice()) {
        Some(r) => r,
        None => {
            return None;
        },
    };
    let a = match win_product(&races) {
        Some(a) => a,
        None => {
            return None;
        },
    };
    let times = match parse_number_list(ls[0].as_slice(), 5) {
        Some(v) => v,
        None => {
            return None;
        },
    };
    let records = match parse_number_list(ls[1].as_slice(), 9) {
        Some(v) => v,
        None => {
            return None;
        },
    };
    let t = match join_digits(&times) {
        Some(t) => t,
        None => {
            return None;
        },
    };
    let d = match join_digits(&records) {
        Some(d) => d,
        None => {
            return None;
        },
    };
    let b = Race { time: t, distance: d }.win_states();
    Some((a, b))
}

} // verus!
