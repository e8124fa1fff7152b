//! Galaxies in an expanding image: the sum of their distances.

use vstd::prelude::*;
use crate::text::{lines, lines_of};

verus! {

pub const GALAXY: u8 = 0x23;

pub const SPACE: u8 = 0x2e;

/// The cells holding a galaxy among the first `n` cells of row `r`, left to right.
pub open spec fn galaxies_in_row(row: Seq<u8>, r: int, n: int) -> Seq<(int, int)>
    decreases n,
{
    if n <= 0 {
        Seq::empty()
    } else if row[n - 1] == GALAXY {
        galaxies_in_row(row, r, n - 1).push((r, n - 1))
    } else {
        galaxies_in_row(row, r, n - 1)
    }
}

/// The galaxies of the first `n` rows, row by row.
pub open spec fn galaxies_spec(m: Seq<Seq<u8>>, n: int) -> Seq<(int, int)>
    decreases n,
{
    if n <= 0 {
        Seq::empty()
    } else {
        galaxies_spec(m, n - 1) + galaxies_in_row(m[n - 1], n - 1, m[n - 1].len() as int)
    }
}

pub open spec fn rows_of(map: Seq<Vec<u8>>) -> Seq<Seq<u8>> {
    map.map_values(|v: Vec<u8>| v@)
}

pub open spec fn int_pairs(v: Seq<(usize, usize)>) -> Seq<(int, int)> {
    v.map_values(|p: (usize, usize)| (p.0 as int, p.1 as int))
}

/// The galaxies of the map, row by row and left to right.
pub fn find_galaxies(map: &Vec<Vec<u8>>) -> (r: Vec<(usize, usize)>)
    ensures
        int_pairs(r@) == galaxies_spec(rows_of(map@), map.len() as int),
{
    let ghost m = rows_of(map@);
    let mut out: Vec<(usize, usize)> = Vec::new();
    let mut r: usize = 0;
    while r < map.len()
        invariant
            r <= map.len(),
            m == rows_of(map@),
            int_pairs(out@) == galaxies_spec(m, r as int),
        decreases map.len() - r,
    {
        let ghost before = int_pairs(out@);
        assert(m[r as int] == map@[r as int]@);
        let mut c: usize = 0;
        while c < map[r].len()
            invariant
                r < map.len(),
                m == rows_of(map@),
                m[r as int] == map@[r as int]@,
                c <= map@[r as int]@.len(),
                int_pairs(out@) == before + galaxies_in_row(m[r as int], r as int, c as int),
            decreases map@[r as int]@.len() - c,
        {
            assert(m[r as int][c as int] == map@[r as int]@[c as int]);
            if map[r][c] == GALAXY {
                let ghost prev = int_pairs(out@);
                out.push((r, c));
                assert(int_pairs(out@) =~= prev.push((r as int, c as int)));
                assert(galaxies_in_row(m[r as int], r as int, c as int + 1) == galaxies_in_row(
                    m[r as int],
                    r as int,
                    c as int,
                ).push((r as int, c as int)));
                assert(int_pairs(out@) =~= before + galaxies_in_row(m[r as int], r as int, c as int + 1));
            } else {
                assert(galaxies_in_row(m[r as int], r as int, c as int + 1) == galaxies_in_row(m[r as int], r as int, c as int));
            }
            c += 1;
        }
        proof {
            lemma_galaxies_step(before, m, r as int);
        }
        r += 1;
    }
    out
}

proof fn lemma_galaxies_step(before: Seq<(int, int)>, m: Seq<Seq<u8>>, r: int)
    requires
        0 <= r < m.len(),
        before == galaxies_spec(m, r),
    ensures
        galaxies_spec(m, r + 1) == before + galaxies_in_row(m[r], r, m[r].len() as int),
{
}

/// Row `i` holds only empty space.
pub open spec fn row_empty(map: Seq<Vec<u8>>, i: int) -> bool {
    forall|c: int| 0 <= c < map[i]@.len() ==> #[trigger] map[i]@[c] == SPACE
}

/// Column `c` holds only empty space.
pub open spec fn col_empty(map: Seq<Vec<u8>>, c: int) -> bool {
    forall|q: int| 0 <= q < map.len() ==> #[trigger] map[q]@[c] == SPACE
}

/// Whether each row holds no galaxy.
pub fn empty_rows(map: &Vec<Vec<u8>>) -> (r: Vec<bool>)
    ensures
        r.len() == map.len(),
        forall|i: int| 0 <= i < r.len() ==> #[trigger] r@[i] == row_empty(map@, i),
{
    let mut out: Vec<bool> = Vec::new();
    let mut i: usize = 0;
    while i < map.len()
        invariant
            i <= map.len(),
            out.len() == i,
            forall|k: int| 0 <= k < i ==> #[trigger] out@[k] == row_empty(map@, k),
        decreases map.len() - i,
    {
        let mut all = true;
        let mut j: usize = 0;
        while j < map[i].len()
            invariant
                i < map.len(),
                j <= map@[i as int]@.len(),
                all ==> forall|k: int| 0 <= k < j ==> #[trigger] map@[i as int]@[k] == SPACE,
                !all ==> !row_empty(map@, i as int),
            decreases map@[i as int]@.len() - j,
        {
            if map[i][j] != SPACE {
                all = false;
            }
            j += 1;
        }
        out.push(all);
        i += 1;
    }
    out
}

/// Whether each of the first `cols` columns holds no galaxy.
pub fn empty_cols(map: &Vec<Vec<u8>>, cols: usize) -> (r: Vec<bool>)
    requires
        forall|i: int| 0 <= i < map.len() ==> (#[trigger] map@[i])@.len() == cols,
    ensures
        r.len() == cols,
        forall|c: int| 0 <= c < r.len() ==> #[trigger] r@[c] == col_empty(map@, c),
{
    let mut out: Vec<bool> = Vec::new();
    let mut c: usize = 0;
    while c < cols
        invariant
            c <= cols,
            forall|i: int| 0 <= i < map.len() ==> (#[trigger] map@[i])@.len() == cols,
            out.len() == c,
            forall|k: int| 0 <= k < c ==> #[trigger] out@[k] == col_empty(map@, k),
        decreases cols - c,
    {
        let mut all = true;
        let mut q: usize = 0;
        while q < map.len()
            invariant
                c < cols,
                forall|i: int| 0 <= i < map.len() ==> (#[trigger] map@[i])@.len() == cols,
                q <= map.len(),
                all ==> forall|k: int| 0 <= k < q ==> #[trigger] map@[k]@[c as int] == SPACE,
                !all ==> !col_empty(map@, c as int),
            decreases map.len() - q,
        {
            if map[q][c] != SPACE {
                all = false;
            }
            q += 1;
        }
        out.push(all);
        c += 1;
    }
    out
}

/// Number of `true` lines strictly between `a` and `b`.
pub open spec fn between(lines: Seq<bool>, a: int, b: int) -> nat
    decreases lines.len(),
{
    if lines.len() == 0 {
        0
    } else {
        let k = lines.len() - 1;
        between(lines.drop_last(), a, b) + if lines.last() && ((a < k < b) || (b < k < a)) {
            1nat
        } else {
            0nat
        }
    }
}

pub open spec fn abs_diff(a: int, b: int) -> nat {
    if a < b {
        (b - a) as nat
    } else {
        (a - b) as nat
    }
}

/// Distance between two galaxies once every empty row and column has grown `factor` times.
pub open spec fn distance(p: (int, int), q: (int, int), er: Seq<bool>, ec: Seq<bool>, factor: nat) -> nat {
    abs_diff(p.0, q.0) + abs_diff(p.1, q.1) + (between(er, p.0, q.0) + between(ec, p.1, q.1)) * (
    factor - 1) as nat
}

/// Sum of the distances from galaxy `j` to each earlier one, below `i`.
pub open spec fn distances_to(g: Seq<(int, int)>, j: int, i: int, er: Seq<bool>, ec: Seq<bool>, factor: nat) -> nat
    decreases i,
{
    if i <= 0 {
        0
    } else {
        distances_to(g, j, i - 1, er, ec, factor) + distance(g[i - 1], g[j], er, ec, factor)
    }
}

/// Sum of the distances over every pair of the first `n` galaxies.
pub open spec fn pair_sum(g: Seq<(int, int)>, n: int, er: Seq<bool>, ec: Seq<bool>, factor: nat) -> nat
    decreases n,
{
    if n <= 0 {
        0
    } else {
        pair_sum(g, n - 1, er, ec, factor) + distances_to(g, n - 1, n - 1, er, ec, factor)
    }
}

fn count_between(lines: &Vec<bool>, a: usize, b: usize) -> (r: u64)
    ensures
        r == between(lines@, a as int, b as int),
        r <= lines.len(),
{
    let mut c: u64 = 0;
    let mut k: usize = 0;
    while k < lines.len()
        invariant
            k <= lines.len(),
            c == between(lines@.take(k as int), a as int, b as int),
            c <= k,
        decreases lines.len() - k,
    {
        assert(lines@.take(k + 1).drop_last() == lines@.take(k as int));
        if lines[k] && ((a < k && k < b) || (b < k && k < a)) {
            c += 1;
        }
        k += 1;
    }
    assert(lines@.take(lines.len() as int) == lines@);
    c
}

pub proof fn lemma_distances_prefix(g: Seq<(int, int)>, j: int, i: int, k: int, er: Seq<bool>, ec: Seq<bool>, factor: nat)
    requires
        0 <= i <= k,
    ensures
        distances_to(g, j, i, er, ec, factor) <= distances_to(g, j, k, er, ec, factor),
    decreases k - i,
{
    if i < k {
        lemma_distances_prefix(g, j, i, k - 1, er, ec, factor);
    }
}

pub proof fn lemma_pair_prefix(g: Seq<(int, int)>, j: int, n: int, er: Seq<bool>, ec: Seq<bool>, factor: nat)
    requires
        0 <= j <= n,
    ensures
        pair_sum(g, j, er, ec, factor) <= pair_sum(g, n, er, ec, factor),
    decreases n - j,
{
    if j < n {
        lemma_pair_prefix(g, j, n - 1, er, ec, factor);
    }
}

/// Sum of the distances between every pair of galaxies once every empty row and column has
/// grown `factor` times; `None` when it does not fit in 64 bits.
pub fn distance_sum(galaxies: &Vec<(usize, usize)>, empty_rows: &Vec<bool>, empty_cols: &Vec<bool>, factor: u64) -> (r: Option<u64>)
    requires
        factor >= 1,
    ensures
        r matches Some(t) ==> t == pair_sum(int_pairs(galaxies@), galaxies.len() as int, empty_rows@, empty_cols@, factor as nat),
        r.is_none() ==> pair_sum(int_pairs(galaxies@), galaxies.len() as int, empty_rows@, empty_cols@, factor as nat) > u64::MAX,
{
    let ghost g = int_pairs(galaxies@);
    let ghost n = galaxies.len() as int;
    let mut total: u64 = 0;
    let mut j: usize = 0;
    while j < galaxies.len()
        invariant
            j <= galaxies.len(),
            n == galaxies.len(),
            factor >= 1,
            g == int_pairs(galaxies@),
            total == pair_sum(g, j as int, empty_rows@, empty_cols@, factor as nat),
        decreases galaxies.len() - j,
    {
        let mut i: usize = 0;
        let ghost base = total as nat;
        while i < j
            invariant
                i <= j < galaxies.len(),
                n == galaxies.len(),
                factor >= 1,
                g == int_pairs(galaxies@),
                base == pair_sum(g, j as int, empty_rows@, empty_cols@, factor as nat),
                total == base + distances_to(g, j as int, i as int, empty_rows@, empty_cols@, factor as nat),
            decreases j - i,
        {
            let (r1, c1) = galaxies[i];
            let (r2, c2) = galaxies[j];
            let dr = if r1 < r2 { r2 - r1 } else { r1 - r2 } as u64;
            let dc = if c1 < c2 { c2 - c1 } else { c1 - c2 } as u64;
            let grown = count_between(empty_rows, r1, r2) as u128 + count_between(empty_cols, c1, c2) as u128;
            let ghost whole = distance(g[i as int], g[j as int], empty_rows@, empty_cols@, factor as nat);
            proof {
                lemma_distances_prefix(g, j as int, i + 1, j as int, empty_rows@, empty_cols@, factor as nat);
                lemma_pair_prefix(g, j + 1, n, empty_rows@, empty_cols@, factor as nat);
            }
            let extra = match grown.checked_mul((factor - 1) as u128) {
                Some(x) => x,
                None => {
                    assert(whole > u64::MAX);
                    return None;
                },
            };
            if extra > u64::MAX as u128 {
                assert(whole > u64::MAX);
                return None;
            }
            let d = dr as u128 + dc as u128 + extra;
            assert(d == whole);
            if d > (u64::MAX - total) as u128 {
                return None;
            }
            total = total + d as u64;
            i += 1;
        }
        j += 1;
    }
    Some(total)
}

/// Which rows of `m` hold only empty space.
pub open spec fn empty_row_flags(m: Seq<Seq<u8>>) -> Seq<bool> {
    Seq::new(m.len(), |i: int| forall|c: int| 0 <= c < m[i].len() ==> #[trigger] m[i][c] == SPACE)
}

/// Which of the first `cols` columns of `m` hold only empty space.
pub open spec fn empty_col_flags(m: Seq<Seq<u8>>, cols: int) -> Seq<bool> {
    Seq::new(cols as nat, |c: int| forall|q: int| 0 <= q < m.len() ==> #[trigger] m[q][c] == SPACE)
}

/// The sum of the distances between the galaxies of the image `m` once every empty row and
/// column has grown `factor` times.
pub open spec fn image_distances(m: Seq<Seq<u8>>, factor: nat) -> nat {
    let g = galaxies_spec(m, m.len() as int);
    pair_sum(g, g.len() as int, empty_row_flags(m), empty_col_flags(m, m[0].len() as int), factor)
}

/// The image has at least one line and all its lines are equally long.
pub open spec fn image_ok(m: Seq<Seq<u8>>) -> bool {
    m.len() > 0 && forall|i: int| 0 <= i < m.len() ==> (#[trigger] m[i]).len() == m[0].len()
}

/// Both answers for an image given as lines of equal length: the distance sums with empty
/// lines doubled and grown a million times.  `None` where the lines differ in length or there
/// are none, or a sum does not fit in 64 bits.
pub fn solve(input: &[u8]) -> (r: Option<(u64, u64)>)
    ensures
        r matches Some((a, b)) ==> a == image_distances(lines_of(input@), 2) && b == image_distances(
            lines_of(input@),
            1_000_000,
        ),
        r.is_some() <==> image_ok(lines_of(input@)) && image_distances(lines_of(input@), 2) <= u64::MAX
            && image_distances(lines_of(input@), 1_000_000) <= u64::MAX,
{
    let map = lines(input);
    let ghost m = rows_of(map@);
    assert(m == lines_of(input@));
    if map.len() == 0 {
        return None;
    }
    let cols = map[0].len();
    let mut i: usize = 0;
    while i < map.len()
        invariant
            i <= map.len(),
            m == rows_of(map@),
            m == lines_of(input@),
            cols == map@[0]@.len(),
            forall|k: int| 0 <= k < i ==> (#[trigger] map@[k])@.len() == cols,
        decreases map.len() - i,
    {
        if map[i].len() != cols {
            proof {
                assert(m[i as int] == map@[i as int]@);
                assert(m[0] == map@[0]@);
            }
            return None;
        }
        i += 1;
    }
    let galaxies = find_galaxies(&map);
    let er = empty_rows(&map);
    let ec = empty_cols(&map, cols);
    proof {
        assert(int_pairs(galaxies@).len() == galaxies@.len());
        assert forall|k: int| 0 <= k < m.len() implies (#[trigger] m[k]).len() == m[0].len() by {
            assert(m[k] == map@[k]@);
            assert(m[0] == map@[0]@);
        }
        assert forall|k: int| 0 <= k < map.len() implies #[trigger] m[k] == map@[k]@ by {}
        assert(er@ =~= empty_row_flags(m)) by {
            assert forall|k: int| 0 <= k < er.len() implies #[trigger] er@[k] == empty_row_flags(m)[k] by {
                assert(m[k] == map@[k]@);
            }
        }
        assert(ec@ =~= empty_col_flags(m, m[0].len() as int)) by {
            assert(m[0] == map@[0]@);
            assert forall|c: int| 0 <= c < ec.len() implies #[trigger] ec@[c] == empty_col_flags(m, m[0].len() as int)[c] by {
                if col_empty(map@, c) {
                    assert forall|q: int| 0 <= q < m.len() implies #[trigger] m[q][c] == SPACE by {
                        assert(m[q] == map@[q]@);
                    }
                }
                if forall|q: int| 0 <= q < m.len() ==> #[trigger] m[q][c] == SPACE {
                    assert forall|q: int| 0 <= q < map.len() implies #[trigger] map@[q]@[c] == SPACE by {
                        assert(m[q] == map@[q]@);
                    }
                }
            }
        }
    }
    let a = match distance_sum(&galaxies, &er, &ec, 2) {
        Some(a) => a,
        None => {
            return None;
        },
    };
    let b = match distance_sum(&galaxies, &er, &ec, 1_000_000) {
        Some(b) => b,
        None => {
            return None;
        },
    };
    Some((a, b))
}

} // verus!
