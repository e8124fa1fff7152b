//! Patterns of ash and rocks: their lines of reflection, exact or with one smudge.

use vstd::prelude::*;

verus! {

pub const ROCK: u8 = 0x23;

/// The row read as a binary number, `#` for one and anything else for zero.
pub open spec fn bits_value(row: Seq<u8>) -> nat
    decreases row.len(),
{
    if row.len() == 0 {
        0
    } else {
        bits_value(row.drop_last()) * 2 + if row.last() == ROCK {
            1nat
        } else {
            0nat
        }
    }
}

pub proof fn lemma_bits_bound(row: Seq<u8>)
    ensures
        bits_value(row) < crate::cards::pow2(row.len()),
    decreases row.len(),
{
    if row.len() > 0 {
        lemma_bits_bound(row.drop_last());
    }
}

/// The row as a binary number; rows of up to 64 cells fit.
pub fn row_to_u64(row: &[u8]) -> (r: u64)
    requires
        row.len() <= 64,
    ensures
        r == bits_value(row@),
{
    let mut value: u64 = 0;
    let mut i: usize = 0;
    proof {
        crate::cards::lemma_pow2_63();
    }
    while i < row.len()
        invariant
            i <= row.len() <= 64,
            value == bits_value(row@.take(i as int)),
            crate::cards::pow2(63) == 0x8000_0000_0000_0000,
        decreases row.len() - i,
    {
        assert(row@.take(i + 1).drop_last() == row@.take(i as int));
        proof {
            lemma_bits_bound(row@.take(i as int));
            crate::cards::lemma_pow2_mono(i as nat, 63);
        }
        value = value * 2;
        if row[i] == ROCK {
            value = value + 1;
        }
        i += 1;
    }
    assert(row@.take(row.len() as int) == row@);
    value
}

/// All rows are as long as the first, and there is at least one.
pub open spec fn rect(rows: Seq<Vec<u8>>) -> bool {
    rows.len() > 0 && forall|r: int| 0 <= r < rows.len() ==> (#[trigger] rows[r])@.len() == rows[0]@.len()
}

/// The columns of the grid as rows.
pub fn rotate_grid(rows: &Vec<Vec<u8>>) -> (out: Vec<Vec<u8>>)
    requires
        rect(rows@),
    ensures
        out.len() == rows@[0]@.len(),
        forall|c: int| 0 <= c < out.len() ==> (#[trigger] out@[c])@.len() == rows.len(),
        forall|c: int, k: int|
            0 <= c < out.len() && 0 <= k < rows.len() ==> #[trigger] out@[c]@[k] == rows@[k]@[c],
{
    let cols = rows[0].len();
    let mut out: Vec<Vec<u8>> = Vec::new();
    let mut c: usize = 0;
    while c < cols
        invariant
            c <= cols,
            cols == rows@[0]@.len(),
            rect(rows@),
            out.len() == c,
            forall|q: int| 0 <= q < c ==> (#[trigger] out@[q])@.len() == rows.len(),
            forall|q: int, k: int|
                0 <= q < c && 0 <= k < rows.len() ==> #[trigger] out@[q]@[k] == rows@[k]@[q],
        decreases cols - c,
    {
        let mut col: Vec<u8> = Vec::new();
        let mut k: usize = 0;
        while k < rows.len()
            invariant
                c < cols,
                cols == rows@[0]@.len(),
                rect(rows@),
                k <= rows.len(),
                col.len() == k,
                forall|j: int| 0 <= j < k ==> #[trigger] col@[j] == rows@[j]@[c as int],
            decreases rows.len() - k,
        {
            assert(rows@[k as int]@.len() == cols);
            col.push(rows[k][c]);
            k += 1;
        }
        out.push(col);
        c += 1;
    }
    out
}

/// The grid mirrors between rows `i - 1` and `i`: each row pair at equal distance from that
/// line matches, as far as both exist.
pub open spec fn reflects(g: Seq<u64>, i: int) -> bool {
    forall|d: int| 0 <= d && d < i && i + d < g.len() ==> #[trigger] g[i - 1 - d] == g[i + d]
}

/// The mirror lines `i` in `[1, n)` of `g`, in increasing order.
pub open spec fn reflections(g: Seq<u64>, n: int) -> Seq<usize>
    decreases n,
{
    if n <= 1 {
        Seq::empty()
    } else if reflects(g, n - 1) {
        reflections(g, n - 1).push((n - 1) as usize)
    } else {
        reflections(g, n - 1)
    }
}

/// The mirror lines of the grid.
pub fn find_reflections(grid: &[u64]) -> (r: Vec<usize>)
    ensures
        r@ == reflections(grid@, grid@.len() as int),
{
    let mut out: Vec<usize> = Vec::new();
    if grid.len() == 0 {
        return out;
    }
    let mut i: usize = 1;
    while i < grid.len()
        invariant
            1 <= i <= grid.len(),
            out@ == reflections(grid@, i as int),
        decreases grid.len() - i,
    {
        let mut d: usize = 0;
        let mut ok = true;
        while d < i && d < grid.len() - i
            invariant
                i < grid.len(),
                d <= i,
                ok ==> forall|e: int| 0 <= e < d ==> #[trigger] grid@[i - 1 - e] == grid@[i + e],
                !ok ==> !reflects(grid@, i as int),
            ensures
                ok ==> forall|e: int| 0 <= e < d ==> #[trigger] grid@[i - 1 - e] == grid@[i + e],
                !ok ==> !reflects(grid@, i as int),
                ok ==> d >= i || d >= grid.len() - i,
            decreases i - d,
        {
            if grid[i - 1 - d] != grid[i + d] {
                ok = false;
                break;
            }
            d += 1;
        }
        proof {
            if ok {
                assert forall|e: int| 0 <= e && e < i && i + e < grid@.len() implies #[trigger] grid@[i
                    - 1 - e] == grid@[i + e] by {
                    assert(e < d);
                }
            }
        }
        if ok {
            out.push(i);
        }
        i += 1;
    }
    out
}

/// Number of one bits of `x`.
pub open spec fn ones(x: u64) -> nat
    decreases x,
{
    if x == 0 {
        0
    } else {
        ones(x / 2) + (x % 2) as nat
    }
}

pub proof fn lemma_ones_bound(x: u64, k: nat)
    requires
        x < crate::cards::pow2(k),
    ensures
        ones(x) <= k,
    decreases x,
{
    if x > 0 {
        assert(k > 0);
        lemma_ones_bound(x / 2, (k - 1) as nat);
    }
}

/// Number of one bits of `x`.
pub fn count_ones(x: u64) -> (r: u32)
    ensures
        r == ones(x),
        r <= 64,
{
    proof {
        crate::cards::lemma_pow2_63();
        lemma_ones_bound(x, 64);
    }
    let mut v = x;
    let mut c: u32 = 0;
    while v != 0
        invariant
            c + ones(v) == ones(x),
            ones(x) <= 64,
        decreases v,
    {
        let low = v & 1;
        assert(low == v % 2) by (bit_vector)
            requires
                low == v & 1,
        ;
        let half = v >> 1;
        assert(half == v / 2) by (bit_vector)
            requires
                half == v >> 1,
        ;
        c = c + low as u32;
        v = half;
    }
    c
}

/// Cells that differ between the rows on each side of line `i`, summed over the row pairs.
pub open spec fn smudges_from(g: Seq<u64>, i: int, d: int) -> nat
    decreases i - d,
{
    if d < 0 || d >= i || i + d >= g.len() {
        0
    } else {
        ones(g[i - 1 - d] ^ g[i + d]) + smudges_from(g, i, d + 1)
    }
}

pub proof fn lemma_smudges_suffix(g: Seq<u64>, i: int, d: int)
    requires
        0 <= d,
    ensures
        smudges_from(g, i, d) <= smudges_from(g, i, 0),
    decreases d,
{
    if d > 0 {
        lemma_smudges_suffix(g, i, d - 1);
    }
}

/// The lines `i` in `[1, n)` across which exactly one cell differs.
pub open spec fn smudged_reflections(g: Seq<u64>, n: int) -> Seq<usize>
    decreases n,
{
    if n <= 1 {
        Seq::empty()
    } else if smudges_from(g, n - 1, 0) == 1 {
        smudged_reflections(g, n - 1).push((n - 1) as usize)
    } else {
        smudged_reflections(g, n - 1)
    }
}

/// The mirror lines of the grid once exactly one cell is fixed.
pub fn find_reflections_pt2(grid: &[u64]) -> (r: Vec<usize>)
    ensures
        r@ == smudged_reflections(grid@, grid@.len() as int),
{
    let mut out: Vec<usize> = Vec::new();
    if grid.len() == 0 {
        return out;
    }
    let mut i: usize = 1;
    while i < grid.len()
        invariant
            1 <= i <= grid.len(),
            out@ == smudged_reflections(grid@, i as int),
        decreases grid.len() - i,
    {
        // count from the outermost pair inward, so each step adds the next term of the sum
        let mut d: usize = if i < grid.len() - i {
            i
        } else {
            grid.len() - i
        };
        let mut smudges: u64 = 0;
        while d > 0 && smudges < 2
            invariant
                i < grid.len(),
                d <= i,
                i + d <= grid.len(),
                smudges == smudges_from(grid@, i as int, d as int),
                smudges <= 65,
            decreases d,
        {
            d -= 1;
            let n = count_ones(grid[i - 1 - d] ^ grid[i + d]);
            smudges = smudges + n as u64;
        }
        proof {
            lemma_smudges_suffix(grid@, i as int, d as int);
        }
        if smudges == 1 {
            out.push(i);
        }
        i += 1;
    }
    out
}

/// Sum of the line numbers.
pub open spec fn line_sum(s: Seq<usize>) -> nat
    decreases s.len(),
{
    if s.len() == 0 {
        0
    } else {
        line_sum(s.drop_last()) + s.last() as nat
    }
}

/// Sum of the line numbers.
pub fn sum_lines(s: &Vec<usize>) -> (r: Option<u64>)
    ensures
        r matches Some(v) ==> v == line_sum(s@),
        r.is_none() ==> line_sum(s@) > u64::MAX,
{
    let mut total: u64 = 0;
    let mut i: usize = 0;
    while i < s.len()
        invariant
            i <= s.len(),
            total == line_sum(s@.take(i as int)),
        decreases s.len() - i,
    {
        assert(s@.take(i + 1).drop_last() == s@.take(i as int));
        match total.checked_add(s[i] as u64) {
            Some(t) => {
                total = t;
            },
            None => {
                proof {
                    lemma_line_sum_prefix(s@, i + 1);
                }
                return None;
            },
        }
        i += 1;
    }
    assert(s@.take(s.len() as int) == s@);
    Some(total)
}

pub proof fn lemma_line_sum_prefix(s: Seq<usize>, k: int)
    requires
        0 <= k <= s.len(),
    ensures
        line_sum(s.take(k)) <= line_sum(s),
    decreases s.len() - k,
{
    if k < s.len() {
        assert(s.take(k + 1).drop_last() == s.take(k));
        lemma_line_sum_prefix(s, k + 1);
    } else {
        assert(s.take(k) == s);
    }
}

/// The rows of a pattern as binary numbers.
pub open spec fn block_rows(b: Seq<Seq<u8>>) -> Seq<u64> {
    Seq::new(b.len(), |r: int| bits_value(b[r]) as u64)
}

/// The columns of a pattern, read top to bottom, as binary numbers.
pub open spec fn block_cols(b: Seq<Seq<u8>>) -> Seq<u64> {
    Seq::new(b[0].len(), |c: int| bits_value(Seq::new(b.len(), |r: int| b[r][c])) as u64)
}

/// A pattern's summary: a hundred times its mirror lines between rows plus its mirror lines
/// between columns, exact or with one smudge.
pub open spec fn block_score(b: Seq<Seq<u8>>, smudged: bool) -> nat {
    let rows = block_rows(b);
    let cols = block_cols(b);
    if smudged {
        100 * line_sum(smudged_reflections(rows, rows.len() as int)) + line_sum(
            smudged_reflections(cols, cols.len() as int),
        )
    } else {
        100 * line_sum(reflections(rows, rows.len() as int)) + line_sum(
            reflections(cols, cols.len() as int),
        )
    }
}

/// Sum of the summaries of the patterns; empty blocks hold no pattern.
pub open spec fn mirror_total(bs: Seq<Seq<Seq<u8>>>, smudged: bool) -> nat
    decreases bs.len(),
{
    if bs.len() == 0 {
        0
    } else {
        mirror_total(bs.drop_last(), smudged) + if bs.last().len() == 0 {
            0
        } else {
            block_score(bs.last(), smudged)
        }
    }
}

fn score(block: &Vec<Vec<u8>>, smudged: bool) -> (r: Option<u64>)
    requires
        rect(block@),
        block.len() <= 64,
        block@[0]@.len() <= 64,
    ensures
        r matches Some(v) ==> v == block_score(crate::text::lines_view(*block), smudged),
        r.is_none() ==> block_score(crate::text::lines_view(*block), smudged) > u64::MAX,
{
    let ghost b = crate::text::lines_view(*block);
    let mut rows: Vec<u64> = Vec::new();
    let mut r: usize = 0;
    while r < block.len()
        invariant
            r <= block.len() <= 64,
            rect(block@),
            block@[0]@.len() <= 64,
            b == crate::text::lines_view(*block),
            rows.len() == r,
            forall|k: int| 0 <= k < r ==> #[trigger] rows@[k] == bits_value(b[k]) as u64,
        decreases block.len() - r,
    {
        assert(block@[r as int]@.len() == block@[0]@.len());
        assert(b[r as int] == block@[r as int]@);
        let v = row_to_u64(block[r].as_slice());
        rows.push(v);
        r += 1;
    }
    assert(rows@ =~= block_rows(b));
    let turned = rotate_grid(block);
    let mut cols: Vec<u64> = Vec::new();
    let mut c: usize = 0;
    while c < turned.len()
        invariant
            c <= turned.len(),
            turned.len() == block@[0]@.len(),
            block.len() <= 64,
            rect(block@),
            b == crate::text::lines_view(*block),
            forall|q: int| 0 <= q < turned.len() ==> (#[trigger] turned@[q])@.len() == block.len(),
            forall|q: int, k: int|
                0 <= q < turned.len() && 0 <= k < block.len() ==> #[trigger] turned@[q]@[k] == block@[k]@[q],
            cols.len() == c,
            forall|k: int| 0 <= k < c ==> #[trigger] cols@[k] == bits_value(Seq::new(b.len(), |q: int| b[q][k])) as u64,
        decreases turned.len() - c,
    {
        let v = row_to_u64(turned[c].as_slice());
        assert(turned@[c as int]@ =~= Seq::new(b.len(), |q: int| b[q][c as int])) by {
            assert forall|q: int| 0 <= q < b.len() implies #[trigger] b[q][c as int] == turned@[c as int]@[q] by {
                assert(b[q] == block@[q]@);
            }
        }
        cols.push(v);
        c += 1;
    }
    assert(b[0] == block@[0]@);
    assert(cols@ =~= block_cols(b));
    let (rl, cl) = if smudged {
        (find_reflections_pt2(rows.as_slice()), find_reflections_pt2(cols.as_slice()))
    } else {
        (find_reflections(rows.as_slice()), find_reflections(cols.as_slice()))
    };
    let a = match sum_lines(&rl) {
        Some(a) => a,
        None => {
            return None;
        },
    };
    let d = match sum_lines(&cl) {
        Some(d) => d,
        None => {
            return None;
        },
    };
    match a.checked_mul(100) {
        Some(x) => x.checked_add(d),
        None => None,
    }
}

/// A pattern is empty, or rectangular and at most 64 cells wide and high.
pub open spec fn block_ok(b: Seq<Seq<u8>>) -> bool {
    b.len() == 0 || (b.len() <= 64 && b[0].len() <= 64 && forall|q: int|
        0 <= q < b.len() ==> (#[trigger] b[q]).len() == b[0].len())
}

pub proof fn lemma_mirror_prefix(bs: Seq<Seq<Seq<u8>>>, k: int, smudged: bool)
    requires
        0 <= k <= bs.len(),
    ensures
        mirror_total(bs.take(k), smudged) <= mirror_total(bs, smudged),
    decreases bs.len() - k,
{
    if k < bs.len() {
        assert(bs.take(k + 1).drop_last() == bs.take(k));
        lemma_mirror_prefix(bs, k + 1, smudged);
    } else {
        assert(bs.take(k) == bs);
    }
}

/// Both answers for the patterns of `input`, separated by empty lines: the sum of their
/// summaries, exact and with one smudge.  `None` where a pattern is not rectangular or is more
/// than 64 cells wide or high, or a sum does not fit in 64 bits.
pub fn solve(input: &[u8]) -> (r: Option<(u64, u64)>)
    ensures
        r matches Some((a, b)) ==> a == mirror_total(crate::text::blocks_of(crate::text::lines_of(input@)), false)
            && b == mirror_total(crate::text::blocks_of(crate::text::lines_of(input@)), true),
        r.is_some() <==> (forall|i: int|
            0 <= i < crate::text::blocks_of(crate::text::lines_of(input@)).len() ==> block_ok(
                #[trigger] crate::text::blocks_of(crate::text::lines_of(input@))[i],
            )) && mirror_total(crate::text::blocks_of(crate::text::lines_of(input@)), false) <= u64::MAX
            && mirror_total(crate::text::blocks_of(crate::text::lines_of(input@)), true) <= u64::MAX,
{
    let ls = crate::text::lines(input);
    let bs = crate::text::blocks(&ls);
    let ghost bv = bs@.map_values(|b: Vec<Vec<u8>>| crate::text::lines_view(b));
    proof {
        assert(crate::text::lines_view(ls) == crate::text::lines_of(input@));
    }
    let ghost all = crate::text::blocks_of(crate::text::lines_of(input@));
    assert(bv == all);
    let mut a: u64 = 0;
    let mut b: u64 = 0;
    let mut i: usize = 0;
    while i < bs.len()
        invariant
            i <= bs.len(),
            bv == bs@.map_values(|b: Vec<Vec<u8>>| crate::text::lines_view(b)),
            bv == all,
            all == crate::text::blocks_of(crate::text::lines_of(input@)),
            forall|q: int| 0 <= q < i ==> block_ok(#[trigger] all[q]),
            a == mirror_total(bv.take(i as int), false),
            b == mirror_total(bv.take(i as int), true),
        decreases bs.len() - i,
    {
        assert(bv.take(i + 1).drop_last() == bv.take(i as int));
        assert(bv.take(i + 1).last() == crate::text::lines_view(bs@[i as int]));
        let ghost bl = bv[i as int];
        assert(bl == crate::text::lines_view(bs@[i as int]));
        proof {
            lemma_mirror_prefix(bv, i + 1, false);
            lemma_mirror_prefix(bv, i + 1, true);
        }
        let block = &bs[i];
        if block.len() > 0 {
            assert(bl[0] == block@[0]@);
            if block.len() > 64 || block[0].len() > 64 {
                assert(!block_ok(all[i as int]));
                return None;
            }
            let mut k: usize = 0;
            while k < block.len()
                invariant
                    k <= block.len(),
                    block.len() > 0,
                    bl == crate::text::lines_view(*block),
                    0 <= i < all.len(),
                    bl == all[i as int],
                    all == crate::text::blocks_of(crate::text::lines_of(input@)),
                    forall|q: int| 0 <= q < k ==> (#[trigger] block@[q])@.len() == block@[0]@.len(),
                decreases block.len() - k,
            {
                if block[k].len() != block[0].len() {
                    assert(bl[k as int] == block@[k as int]@);
                    assert(bl[0] == block@[0]@);
                    assert(!block_ok(bl));
                    return None;
                }
                k += 1;
            }
            assert(block_ok(bl)) by {
                assert forall|q: int| 0 <= q < bl.len() implies (#[trigger] bl[q]).len() == bl[0].len() by {
                    assert(bl[q] == block@[q]@);
                    assert(bl[0] == block@[0]@);
                }
            }
            let x = match score(block, false) {
                Some(x) => x,
                None => {
                    return None;
                },
            };
            let y = match score(block, true) {
                Some(y) => y,
                None => {
                    return None;
                },
            };
            a = match a.checked_add(x) {
                Some(t) => t,
                None => {
                    return None;
                },
            };
            b = match b.checked_add(y) {
                Some(t) => t,
                None => {
                    return None;
                },
            };
        }
        i += 1;
    }
    assert(bv.take(bs.len() as int) == bv);
    Some((a, b))
}

} // verus!
