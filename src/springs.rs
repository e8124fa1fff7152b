//! Counting the arrangements of damaged springs that match a list of run lengths.

use vstd::prelude::*;

verus! {

/// The state of one spring: known to work, known to be damaged, or not known.
#[derive(Debug, Clone, Copy, PartialEq, Eq, Structural)]
pub enum Spring {
    Working,
    Damaged,
    Unknown,
}

impl Spring {
    pub open spec fn from_char_spec(c: char) -> Option<Spring> {
        if c == '.' {
            Some(Spring::Working)
        } else if c == '#' {
            Some(Spring::Damaged)
        } else if c == '?' {
            Some(Spring::Unknown)
        } else {
            None
        }
    }

    /// Reads `.`, `#` and `?`; any other character is an error.
    pub fn try_from(value: char) -> (r: Result<Spring, ()>)
        ensures
            r == (match Spring::from_char_spec(value) {
                Some(s) => Ok::<Spring, ()>(s),
                None => Err(()),
            }),
    {
        match value {
            '.' => Ok(Spring::Working),
            '#' => Ok(Spring::Damaged),
            '?' => Ok(Spring::Unknown),
            _ => Err(()),
        }
    }
}

/// The first `n` springs can all be damaged, and the one after them, if any, can work.
pub open spec fn group_fits(s: Seq<Spring>, n: int) -> bool {
    &&& 0 <= n <= s.len()
    &&& forall|i: int| 0 <= i < n ==> s[i] != Spring::Working
    &&& n < s.len() ==> s[n] != Spring::Damaged
}

/// How many springs a group of `n` uses up, with the gap after it when there is room for one.
pub open spec fn after_group(s: Seq<Spring>, n: int) -> int {
    if n < s.len() {
        n + 1
    } else {
        n
    }
}

/// Number of ways to resolve the unknown springs of `s` so that the runs of damaged springs,
/// left to right, have exactly the lengths `g`.
pub open spec fn arrangements(s: Seq<Spring>, g: Seq<usize>) -> nat
    decreases s.len(),
{
    if s.len() == 0 {
        if g.len() == 0 {
            1
        } else {
            0
        }
    } else {
        let as_working: nat = if s[0] != Spring::Damaged {
            arrangements(s.drop_first(), g)
        } else {
            0
        };
        let as_damaged: nat = if s[0] != Spring::Working && g.len() > 0 && group_fits(
            s,
            g[0] as int,
        ) {
            arrangements(s.skip(after_group(s, g[0] as int)), g.drop_first())
        } else {
            0
        };
        as_working + as_damaged
    }
}

/// The memo table holds, at `[i][j]`, nothing yet or the count for the suffixes from `i` and `j`.
pub open spec fn cache_ok(cache: Seq<Vec<Option<u64>>>, s: Seq<Spring>, g: Seq<usize>) -> bool {
    &&& cache.len() == s.len() + 1
    &&& forall|i: int| 0 <= i < cache.len() ==> (#[trigger] cache[i])@.len() == g.len() + 1
    &&& forall|i: int, j: int|
        0 <= i < cache.len() && 0 <= j <= g.len() && (#[trigger] cache[i]@[j]).is_some()
            ==> cache[i]@[j] == Some(arrangements(s.skip(i), g.skip(j)) as u64)
            && arrangements(s.skip(i), g.skip(j)) <= u64::MAX
}

/// The count for the suffixes from `si` and `gi`, or `None` when it does not fit in 64 bits.
pub open spec fn count_result(s: Seq<Spring>, g: Seq<usize>, si: int, gi: int) -> Option<u64> {
    if arrangements(s.skip(si), g.skip(gi)) <= u64::MAX {
        Some(arrangements(s.skip(si), g.skip(gi)) as u64)
    } else {
        None
    }
}

/// Counts the arrangements of the springs from `si` on against the groups from `gi` on,
/// remembering each count in `cache`.
pub fn count_matches(
    springs: &Vec<Spring>,
    groups: &Vec<usize>,
    si: usize,
    gi: usize,
    cache: &mut Vec<Vec<Option<u64>>>,
) -> (r: Option<u64>)
    requires
        si <= springs.len(),
        gi <= groups.len(),
        cache_ok(old(cache)@, springs@, groups@),
    ensures
        cache_ok(final(cache)@, springs@, groups@),
        r == count_result(springs@, groups@, si as int, gi as int),
        forall|i: int, j: int|
            0 <= i < old(cache)@.len() && 0 <= j < old(cache)@[i]@.len() && (#[trigger] old(cache)@[i]@[j]).is_some()
                ==> final(cache)@[i]@[j] == old(cache)@[i]@[j],
    decreases springs.len() - si,
{
    let ghost s = springs@.skip(si as int);
    let ghost g = groups@.skip(gi as int);
    if si == springs.len() {
        assert(s.len() == 0);
        return if gi == groups.len() {
            Some(1)
        } else {
            Some(0)
        };
    }
    if let Some(c) = cache[si][gi] {
        return Some(c);
    }
    let first = springs[si];
    assert(s[0] == first);
    assert(s.drop_first() == springs@.skip(si + 1));
    let as_working: u64 = if first != Spring::Damaged {
        match count_matches(springs, groups, si + 1, gi, cache) {
            Some(c) => c,
            None => {
                return None;
            },
        }
    } else {
        0
    };
    let mut as_damaged: u64 = 0;
    if first != Spring::Working && gi < groups.len() {
        let n = groups[gi];
        assert(g[0] == n);
        let mut fits = n <= springs.len() - si;
        let mut k: usize = 0;
        while fits && k < n
            invariant
                si < springs.len(),
                s == springs@.skip(si as int),
                s.len() == springs.len() - si,
                fits ==> n <= springs.len() - si,
                k <= n,
                fits ==> forall|i: int| 0 <= i < k ==> s[i] != Spring::Working,
                !fits ==> !group_fits(s, n as int),
            decreases n - k,
        {
            assert(s[k as int] == springs@[si + k]);
            if springs[si + k] == Spring::Working {
                fits = false;
            }
            k += 1;
        }
        if fits && n < springs.len() - si && springs[si + n] == Spring::Damaged {
            fits = false;
        }
        if fits {
            assert(group_fits(s, n as int));
            let skip = if n < springs.len() - si {
                n + 1
            } else {
                n
            };
            assert(s.skip(after_group(s, n as int)) == springs@.skip(si + skip));
            assert(g.drop_first() == groups@.skip(gi + 1));
            match count_matches(springs, groups, si + skip, gi + 1, cache) {
                Some(c) => {
                    as_damaged = c;
                },
                None => {
                    return None;
                },
            }
        }
    }
    assert(arrangements(s, g) == as_working + as_damaged);
    let total = match as_working.checked_add(as_damaged) {
        Some(t) => t,
        None => {
            return None;
        },
    };
    cache[si][gi] = Some(total);
    proof {
        assert forall|i: int, j: int|
            0 <= i < cache@.len() && 0 <= j <= groups.len() && (
            #[trigger] cache@[i]@[j]).is_some() implies cache@[i]@[j] == Some(
            arrangements(springs@.skip(i), groups@.skip(j)) as u64,
        ) && arrangements(springs@.skip(i), groups@.skip(j)) <= u64::MAX by {}
    }
    Some(total)
}

/// A memo row of `n + 1` empty entries.
fn unknown_counts(n: usize) -> (r: Vec<Option<u64>>)
    ensures
        r@.len() == n + 1,
        forall|j: int| 0 <= j <= n ==> (#[trigger] r@[j]).is_none(),
{
    let mut row: Vec<Option<u64>> = Vec::new();
    row.push(None);
    let mut j: usize = 0;
    while j < n
        invariant
            j <= n,
            row@.len() == j + 1,
            forall|q: int| 0 <= q <= j ==> (#[trigger] row@[q]).is_none(),
        decreases n - j,
    {
        row.push(None);
        j += 1;
    }
    row
}

/// A row of springs with the lengths of its damaged runs.
#[derive(Debug, Clone)]
pub struct Row {
    pub springs: Vec<Spring>,
    pub groups: Vec<usize>,
}

impl Row {
    /// The number of arrangements, or `None` when it does not fit in 64 bits.
    pub fn count_possibilities(&self) -> (r: Option<u64>)
        ensures
            r == (if arrangements(self.springs@, self.groups@) <= u64::MAX {
                Some(arrangements(self.springs@, self.groups@) as u64)
            } else {
                None::<u64>
            }),
    {
        let mut cache: Vec<Vec<Option<u64>>> = Vec::new();
        cache.push(unknown_counts(self.groups.len()));
        let mut i: usize = 0;
        while i < self.springs.len()
            invariant
                i <= self.springs.len(),
                cache@.len() == i + 1,
                forall|p: int| 0 <= p <= i ==> (#[trigger] cache@[p])@.len() == self.groups.len()
                    + 1 && forall|j: int| 0 <= j <= self.groups.len() ==> cache@[p]@[j].is_none(),
            decreases self.springs.len() - i,
        {
            cache.push(unknown_counts(self.groups.len()));
            i += 1;
        }
        assert(self.springs@.skip(0) == self.springs@);
        assert(self.groups@.skip(0) == self.groups@);
        count_matches(&self.springs, &self.groups, 0, 0, &mut cache)
    }

    /// Five copies of the springs joined by an unknown spring, and five copies of the groups.
    pub fn unfold(&self) -> (r: Row)
        ensures
            r.springs@ == unfold_springs(self.springs@),
            r.groups@ == self.groups@ + self.groups@ + self.groups@ + self.groups@ + self.groups@,
    {
        let mut springs: Vec<Spring> = Vec::new();
        let mut groups: Vec<usize> = Vec::new();
        let mut copy: usize = 0;
        while copy < 5
            invariant
                copy <= 5,
                springs@ == unfold_springs_n(self.springs@, copy as nat),
                groups@ == repeat(self.groups@, copy as nat),
            decreases 5 - copy,
        {
            if copy > 0 {
                springs.push(Spring::Unknown);
            }
            let ghost before = springs@;
            let mut k: usize = 0;
            while k < self.springs.len()
                invariant
                    k <= self.springs.len(),
                    springs@ == before + self.springs@.take(k as int),
                decreases self.springs.len() - k,
            {
                springs.push(self.springs[k]);
                k += 1;
                assert(self.springs@.take(k as int) == self.springs@.take(k - 1) + seq![self.springs@[k - 1]]);
            }
            assert(self.springs@.take(self.springs.len() as int) == self.springs@);
            let ghost gbefore = groups@;
            let mut k: usize = 0;
            while k < self.groups.len()
                invariant
                    k <= self.groups.len(),
                    groups@ == gbefore + self.groups@.take(k as int),
                decreases self.groups.len() - k,
            {
                groups.push(self.groups[k]);
                k += 1;
                assert(self.groups@.take(k as int) == self.groups@.take(k - 1) + seq![self.groups@[k - 1]]);
            }
            assert(self.groups@.take(self.groups.len() as int) == self.groups@);
            proof {
                if copy == 0 {
                    assert(springs@ =~= unfold_springs_n(self.springs@, 1));
                }
                assert(groups@ =~= repeat(self.groups@, (copy + 1) as nat));
            }
            copy += 1;
        }
        proof {
            reveal_with_fuel(unfold_springs_n, 6);
            reveal_with_fuel(repeat, 6);
            assert(repeat(self.groups@, 5) =~= self.groups@ + self.groups@ + self.groups@ + self.groups@ + self.groups@);
            assert(unfold_springs_n(self.springs@, 5) =~= unfold_springs(self.springs@));
        }
        Row { springs, groups }
    }
}

/// `n` copies of `s` one after another.
pub open spec fn repeat<T>(s: Seq<T>, n: nat) -> Seq<T>
    decreases n,
{
    if n == 0 {
        Seq::empty()
    } else {
        repeat(s, (n - 1) as nat) + s
    }
}

/// `n` copies of `s`, joined by an unknown spring.
pub open spec fn unfold_springs_n(s: Seq<Spring>, n: nat) -> Seq<Spring>
    decreases n,
{
    if n == 0 {
        Seq::empty()
    } else if n == 1 {
        s
    } else {
        unfold_springs_n(s, (n - 1) as nat).push(Spring::Unknown) + s
    }
}

/// Five copies of `s`, joined by an unknown spring.
pub open spec fn unfold_springs(s: Seq<Spring>) -> Seq<Spring> {
    let u = seq![Spring::Unknown];
    s + u + s + u + s + u + s + u + s
}

/// The comma-separated group lengths from `pos` to the end of `s`.
pub open spec fn group_list(s: Seq<u8>, pos: int) -> Option<Seq<usize>>
    decreases s.len() - pos,
{
    let e = crate::text::digits_end(s, pos);
    if pos < 0 || e <= pos || e > s.len() || crate::text::digits_value(s.subrange(pos, e)) > usize::MAX {
        None
    } else {
        let v = crate::text::digits_value(s.subrange(pos, e)) as usize;
        if e == s.len() {
            Some(seq![v])
        } else if s[e] == 0x2c {
            match group_list(s, e + 1) {
                Some(rest) => Some(seq![v] + rest),
                None => None,
            }
        } else {
            None
        }
    }
}

/// A row `<springs> <groups>`: the springs as `.`, `#` and `?` up to the first space, then
/// spaces, then the group lengths separated by commas.
pub open spec fn row_spec(s: Seq<u8>) -> Option<(Seq<Spring>, Seq<usize>)> {
    let e = crate::cards::find_byte(s, 0, 0x20);
    if e == 0 || e >= s.len() || exists|i: int| 0 <= i < e && #[trigger] Spring::from_char_spec(s[i] as char).is_none() {
        None
    } else {
        match group_list(s, crate::text::spaces_end(s, e)) {
            Some(g) => Some((Seq::new(e as nat, |i: int| Spring::from_char_spec(s[i] as char)->Some_0), g)),
            None => None,
        }
    }
}

fn parse_groups(line: &[u8], pos: usize) -> (r: Option<Vec<usize>>)
    requires
        pos <= line.len(),
    ensures
        r matches Some(v) ==> group_list(line@, pos as int) == Some(v@),
        r.is_none() ==> group_list(line@, pos as int).is_none(),
    decreases line.len() - pos,
{
    proof {
        crate::text::lemma_digits_end(line@, pos as int);
    }
    let (g, e) = match crate::text::parse_number(line, pos) {
        Some(x) => x,
        None => {
            return None;
        },
    };
    if g > usize::MAX as u64 {
        return None;
    }
    if e == line.len() {
        let mut out: Vec<usize> = Vec::new();
        out.push(g as usize);
        assert(out@ =~= seq![g as usize]);
        return Some(out);
    }
    if line[e] != 0x2c {
        return None;
    }
    match parse_groups(line, e + 1) {
        Some(rest) => {
            let mut out: Vec<usize> = Vec::new();
            out.push(g as usize);
            let mut i: usize = 0;
            while i < rest.len()
                invariant
                    i <= rest.len(),
                    out@ == seq![g as usize] + rest@.take(i as int),
                decreases rest.len() - i,
            {
                out.push(rest[i]);
                i += 1;
                assert(rest@.take(i as int) == rest@.take(i - 1).push(rest@[i - 1]));
            }
            assert(rest@.take(rest.len() as int) == rest@);
            Some(out)
        },
        None => None,
    }
}

/// Reads `<springs> <groups>`: the springs as `.`, `#` and `?`, then spaces, then the group
/// lengths separated by commas.
pub fn parse_row(line: &[u8]) -> (r: Option<Row>)
    ensures
        r matches Some(row) ==> row_spec(line@) == Some((row.springs@, row.groups@)),
        r.is_none() ==> row_spec(line@).is_none(),
{
    let mut springs: Vec<Spring> = Vec::new();
    let mut i: usize = 0;
    let mut bad = false;
    while i < line.len() && line[i] != 0x20
        invariant
            i <= line.len(),
            springs.len() == i,
            crate::cards::find_byte(line@, 0, 0x20) == crate::cards::find_byte(line@, i as int, 0x20),
            !bad ==> forall|k: int| 0 <= k < i ==> Spring::from_char_spec(line@[k] as char) == Some(#[trigger] springs@[k]),
            bad ==> exists|k: int| 0 <= k < i && #[trigger] Spring::from_char_spec(line@[k] as char).is_none(),
        decreases line.len() - i,
    {
        match Spring::try_from(line[i] as char) {
            Ok(s) => springs.push(s),
            Err(()) => {
                bad = true;
                springs.push(Spring::Unknown);
            },
        }
        i += 1;
    }
    assert(crate::cards::find_byte(line@, i as int, 0x20) == i);
    if bad || i == 0 || i == line.len() {
        return None;
    }
    let p = crate::text::skip_spaces(line, i);
    match parse_groups(line, p) {
        Some(groups) => {
            proof {
                if exists|k: int| 0 <= k < i && #[trigger] Spring::from_char_spec(line@[k] as char).is_none() {
                    let k = choose|k: int| 0 <= k < i && #[trigger] Spring::from_char_spec(line@[k] as char).is_none();
                    assert(Spring::from_char_spec(line@[k] as char) == Some(springs@[k]));
                }
            }
            assert(springs@ =~= Seq::new(i as nat, |k: int| Spring::from_char_spec(line@[k] as char)->Some_0));
            Some(Row { springs, groups })
        },
        None => {
            proof {
                if exists|k: int| 0 <= k < i && #[trigger] Spring::from_char_spec(line@[k] as char).is_none() {
                    let k = choose|k: int| 0 <= k < i && #[trigger] Spring::from_char_spec(line@[k] as char).is_none();
                    assert(Spring::from_char_spec(line@[k] as char) == Some(springs@[k]));
                }
            }
            None
        },
    }
}

/// Sum over the rows of `ls` of their arrangements, folded out five times where `unfolded`.
pub open spec fn row_sum(ls: Seq<Seq<u8>>, unfolded: bool) -> Option<nat>
    decreases ls.len(),
{
    if ls.len() == 0 {
        Some(0)
    } else {
        match (row_sum(ls.drop_last(), unfolded), row_spec(ls.last())) {
            (Some(t), Some((s, g))) => Some(
                t + if unfolded {
                    arrangements(unfold_springs(s), g + g + g + g + g)
                } else {
                    arrangements(s, g)
                },
            ),
            _ => None,
        }
    }
}

/// Both answers for the rows of `input`, one per line: the sum of the arrangements, and the
/// sum once each row is folded out five times.  `None` where a row does not read or a sum does
/// not fit in 64 bits.
pub fn solve(input: &[u8]) -> (r: Option<(u64, u64)>)
    ensures
        r matches Some((a, b)) ==> row_sum(crate::text::lines_of(input@), false) == Some(a as nat)
            && row_sum(crate::text::lines_of(input@), true) == Some(b as nat),
        r.is_some() <==> (row_sum(crate::text::lines_of(input@), false) matches Some(a) && a <= u64::MAX)
            && (row_sum(crate::text::lines_of(input@), true) matches Some(b) && b <= u64::MAX),
{
    let ls = crate::text::lines(input);
    let ghost lv = ls@.map_values(|v: Vec<u8>| v@);
    assert(lv == crate::text::lines_of(input@));
    let mut a: u64 = 0;
    let mut b: u64 = 0;
    let mut i: usize = 0;
    while i < ls.len()
        invariant
            i <= ls.len(),
            lv == ls@.map_values(|v: Vec<u8>| v@),
            lv == crate::text::lines_of(input@),
            row_sum(lv.take(i as int), false) == Some(a as nat),
            row_sum(lv.take(i as int), true) == Some(b as nat),
        decreases ls.len() - i,
    {
        assert(lv.take(i + 1).drop_last() == lv.take(i as int));
        assert(lv.take(i + 1).last() == ls@[i as int]@);
        let row = match parse_row(ls[i].as_slice()) {
            Some(r) => r,
            None => {
                proof {
                    lemma_row_sum_prefix(lv, i + 1, false);
                }
                return None;
            },
        };
        let once = match row.count_possibilities() {
            Some(c) => c,
            None => {
                proof {
                    lemma_row_sum_prefix(lv, i + 1, false);
                }
                return None;
            },
        };
        let unfolded = row.unfold();
        let folded = match unfolded.count_possibilities() {
            Some(c) => c,
            None => {
                proof {
                    lemma_row_sum_prefix(lv, i + 1, true);
                }
                return None;
            },
        };
        a = match a.checked_add(once) {
            Some(x) => x,
            None => {
                proof {
                    lemma_row_sum_prefix(lv, i + 1, false);
                }
                return None;
            },
        };
        b = match b.checked_add(folded) {
            Some(x) => x,
            None => {
                proof {
                    lemma_row_sum_prefix(lv, i + 1, true);
                }
                return None;
            },
        };
        i += 1;
    }
    assert(lv.take(ls.len() as int) == lv);
    Some((a, b))
}

/// A sum over the first `k` rows bounds the sum over all of them, and a row that does not read
/// leaves no sum.
pub proof fn lemma_row_sum_prefix(ls: Seq<Seq<u8>>, k: int, unfolded: bool)
    requires
        0 <= k <= ls.len(),
    ensures
        row_sum(ls.take(k), unfolded).is_none() ==> row_sum(ls, unfolded).is_none(),
        row_sum(ls.take(k), unfolded).is_some() && row_sum(ls, unfolded).is_some() ==> row_sum(
            ls.take(k),
            unfolded,
        )->Some_0 <= row_sum(ls, unfolded)->Some_0,
    decreases ls.len() - k,
{
    if k < ls.len() {
        assert(ls.take(k + 1).drop_last() == ls.take(k));
        lemma_row_sum_prefix(ls, k + 1, unfolded);
    } else {
        assert(ls.take(k) == ls);
    }
}

/// Cell-by-cell count of the resolutions of `s`: each unknown spring is tried as working and as
/// damaged, and `k` is the length of the damaged run still open before `s`.  The run lengths
/// of a resolution must equal `g`.
pub open spec fn enumerate(s: Seq<Spring>, g: Seq<usize>, k: nat) -> nat
    decreases s.len(),
{
    if s.len() == 0 {
        if k == 0 {
            if g.len() == 0 {
                1
            } else {
                0
            }
        } else if g.len() == 1 && g[0] == k {
            1
        } else {
            0
        }
    } else {
        let rest = s.drop_first();
        let working: nat = if s[0] != Spring::Damaged {
            if k == 0 {
                enumerate(rest, g, 0)
            } else if g.len() > 0 && g[0] == k {
                enumerate(rest, g.drop_first(), 0)
            } else {
                0
            }
        } else {
            0
        };
        let damaged: nat = if s[0] != Spring::Working {
            enumerate(rest, g, k + 1)
        } else {
            0
        };
        working + damaged
    }
}

/// What the enumeration gives while a run of `k` damaged springs is open: the run must grow to
/// exactly `g[0]` and then be closed by a working spring or the end.
pub open spec fn close_run(s: Seq<Spring>, g: Seq<usize>, k: nat) -> nat {
    if g.len() == 0 || k > g[0] {
        0
    } else {
        let m = g[0] - k;
        if m > s.len() || exists|i: int| 0 <= i < m && #[trigger] s[i] == Spring::Working {
            0
        } else if m == s.len() {
            if g.len() == 1 {
                1
            } else {
                0
            }
        } else if s[m] == Spring::Damaged {
            0
        } else {
            enumerate(s.skip(m + 1), g.drop_first(), 0)
        }
    }
}

pub proof fn lemma_close_run(s: Seq<Spring>, g: Seq<usize>, k: nat)
    requires
        k >= 1,
    ensures
        enumerate(s, g, k) == close_run(s, g, k),
    decreases s.len(),
{
    if s.len() > 0 {
        let rest = s.drop_first();
        lemma_close_run(rest, g, k + 1);
        if g.len() > 0 && k <= g[0] {
            let m = g[0] - k;
            if m == 0 {
                assert(s.skip(1) =~= rest);
            } else {
                if m <= s.len() {
                    assert((exists|i: int| 0 <= i < m && #[trigger] s[i] == Spring::Working) <==> (
                    s[0] == Spring::Working || exists|i: int|
                        0 <= i < m - 1 && #[trigger] rest[i] == Spring::Working)) by {
                        if exists|i: int| 0 <= i < m && #[trigger] s[i] == Spring::Working {
                            let i = choose|i: int| 0 <= i < m && #[trigger] s[i] == Spring::Working;
                            if i > 0 {
                                assert(rest[i - 1] == s[i]);
                            }
                        }
                        if exists|i: int| 0 <= i < m - 1 && #[trigger] rest[i] == Spring::Working {
                            let i = choose|i: int| 0 <= i < m - 1 && #[trigger] rest[i] == Spring::Working;
                            assert(s[i + 1] == rest[i]);
                        }
                    }
                    if m < s.len() {
                        assert(rest[m - 1] == s[m]);
                        assert(rest.skip(m) =~= s.skip(m + 1));
                    }
                }
            }
        }
    }
}

/// Counting the arrangements group by group gives the same number as trying every unknown
/// spring both ways, cell by cell, wherever every group is at least one spring long.
pub proof fn lemma_count_matches_enumeration(s: Seq<Spring>, g: Seq<usize>)
    requires
        forall|i: int| 0 <= i < g.len() ==> #[trigger] g[i] >= 1,
    ensures
        arrangements(s, g) == enumerate(s, g, 0),
    decreases s.len(),
{
    if s.len() > 0 {
        let rest = s.drop_first();
        lemma_count_matches_enumeration(rest, g);
        lemma_close_run(rest, g, 1);
        let en_damaged: nat = if s[0] != Spring::Working {
            enumerate(rest, g, 1)
        } else {
            0
        };
        let ar_damaged: nat = if s[0] != Spring::Working && g.len() > 0 && group_fits(s, g[0] as int) {
            arrangements(s.skip(after_group(s, g[0] as int)), g.drop_first())
        } else {
            0
        };
        assert(enumerate(s, g, 0) == (if s[0] != Spring::Damaged {
            enumerate(rest, g, 0)
        } else {
            0
        }) + en_damaged);
        assert(arrangements(s, g) == (if s[0] != Spring::Damaged {
            arrangements(rest, g)
        } else {
            0
        }) + ar_damaged);
        if s[0] != Spring::Working && g.len() > 0 {
            let n = g[0] as int;
            let d = g.drop_first();
            assert forall|i: int| 0 <= i < d.len() implies #[trigger] d[i] >= 1 by {
                assert(d[i] == g[i + 1]);
            }
            if n <= s.len() {
                let m = n - 1;
                assert((forall|i: int| 0 <= i < n ==> s[i] != Spring::Working) <==> !(exists|i: int|
                    0 <= i < m && #[trigger] rest[i] == Spring::Working)) by {
                    if exists|i: int| 0 <= i < m && #[trigger] rest[i] == Spring::Working {
                        let i = choose|i: int| 0 <= i < m && #[trigger] rest[i] == Spring::Working;
                        assert(s[i + 1] == rest[i]);
                    }
                    if !(forall|i: int| 0 <= i < n ==> s[i] != Spring::Working) {
                        let i = choose|i: int| 0 <= i < n && #[trigger] s[i] == Spring::Working;
                        assert(i > 0);
                        assert(rest[i - 1] == s[i]);
                    }
                }
                if n < s.len() {
                    assert(rest[m] == s[n]);
                    assert(rest.skip(m + 1) =~= s.skip(n + 1));
                    lemma_count_matches_enumeration(s.skip(n + 1), d);
                    assert(ar_damaged == en_damaged);
                } else {
                    assert(s.skip(n).len() == 0);
                    assert(ar_damaged == en_damaged);
                }
            } else {
                assert(ar_damaged == en_damaged);
            }
        }
        assert(ar_damaged == en_damaged);
    }
}

} // verus!
