//! Rolling rocks on a board in each direction, spins, the load on the north edge and the
//! load after many spins found through the period of the spins.

use vstd::prelude::*;
use vstd::arithmetic::div_mod::lemma_fundamental_div_mod;

verus! {

/// A rock that rolls.
pub const ROUND_ROCK: u8 = 0x4f;

/// An empty cell.
pub const GROUND: u8 = 0x2e;

/// Number of trailing empty cells of `d`.
pub open spec fn trailing_ground(d: Seq<u8>) -> nat
    decreases d.len(),
{
    if d.len() == 0 {
        0
    } else if d.last() == GROUND {
        trailing_ground(d.drop_last()) + 1
    } else {
        0
    }
}

/// `s` with every round rock rolled toward index 0 until it meets the start, a fixed obstacle
/// (any cell that is neither a round rock nor ground) or another rock.  Each new cell is
/// placed after the rolled prefix; a new rock goes to the first cell of the prefix's trailing
/// run of ground, or stays where it is when there is none.
pub open spec fn roll_line(s: Seq<u8>) -> Seq<u8>
    decreases s.len(),
{
    if s.len() == 0 {
        s
    } else {
        let p = roll_line(s.drop_last());
        if s.last() == ROUND_ROCK {
            p.push(GROUND).update(p.len() - trailing_ground(p), ROUND_ROCK)
        } else {
            p.push(s.last())
        }
    }
}

/// No rock has ground right before it: nothing can roll further.
pub open spec fn settled(s: Seq<u8>) -> bool {
    forall|i: int| 0 < i < s.len() && #[trigger] s[i] == ROUND_ROCK ==> s[i - 1] != GROUND
}

pub proof fn lemma_trailing(d: Seq<u8>)
    ensures
        trailing_ground(d) <= d.len(),
        forall|k: int| d.len() - trailing_ground(d) <= k < d.len() ==> #[trigger] d[k] == GROUND,
        trailing_ground(d) < d.len() ==> d[d.len() - trailing_ground(d) - 1] != GROUND,
    decreases d.len(),
{
    if d.len() > 0 && d.last() == GROUND {
        let p = d.drop_last();
        lemma_trailing(p);
        assert forall|k: int| d.len() - trailing_ground(d) <= k < d.len() implies #[trigger] d[k]
            == GROUND by {
            if k < d.len() - 1 {
                assert(d[k] == p[k]);
            }
        }
        if trailing_ground(d) < d.len() {
            assert(d[d.len() - trailing_ground(d) - 1] == p[p.len() - trailing_ground(p) - 1]);
        }
    }
}

pub proof fn lemma_trailing_is(d: Seq<u8>, t: int)
    requires
        0 <= t <= d.len(),
        forall|k: int| d.len() - t <= k < d.len() ==> #[trigger] d[k] == GROUND,
        t < d.len() ==> d[d.len() - t - 1] != GROUND,
    ensures
        trailing_ground(d) == t,
    decreases d.len(),
{
    if t > 0 {
        let p = d.drop_last();
        assert(d[d.len() - 1] == GROUND);
        assert forall|k: int| p.len() - (t - 1) <= k < p.len() implies #[trigger] p[k] == GROUND by {
            assert(p[k] == d[k]);
        }
        if t - 1 < p.len() {
            assert(p[p.len() - (t - 1) - 1] == d[d.len() - t - 1]);
        }
        lemma_trailing_is(p, t - 1);
    } else if d.len() > 0 {
        assert(d[d.len() - 1] != GROUND);
    }
}

pub proof fn lemma_roll_len(s: Seq<u8>)
    ensures
        roll_line(s).len() == s.len(),
    decreases s.len(),
{
    if s.len() > 0 {
        lemma_roll_len(s.drop_last());
        lemma_trailing(roll_line(s.drop_last()));
    }
}

/// A rolled line is settled.
pub proof fn lemma_roll_settled(s: Seq<u8>)
    ensures
        settled(roll_line(s)),
    decreases s.len(),
{
    if s.len() > 0 {
        let p = roll_line(s.drop_last());
        lemma_roll_settled(s.drop_last());
        lemma_trailing(p);
        let q = roll_line(s);
        if s.last() == ROUND_ROCK {
            let f = p.len() - trailing_ground(p);
            assert forall|i: int| 0 < i < q.len() && #[trigger] q[i] == ROUND_ROCK implies q[i
                - 1] != GROUND by {
                if i < f {
                    assert(q[i] == p[i] && q[i - 1] == p[i - 1]);
                } else if i == f {
                    assert(q[i - 1] == p[i - 1]);
                } else if i < p.len() {
                    assert(q[i] == p[i]);
                }
            }
        } else {
            assert forall|i: int| 0 < i < q.len() && #[trigger] q[i] == ROUND_ROCK implies q[i
                - 1] != GROUND by {
                if i < p.len() {
                    assert(q[i] == p[i] && q[i - 1] == p[i - 1]);
                } else {
                    assert(q[i] == s.last());
                }
            }
        }
    }
}

/// Rolling a settled line changes nothing.
pub proof fn lemma_settled_fixed(s: Seq<u8>)
    requires
        settled(s),
    ensures
        roll_line(s) == s,
    decreases s.len(),
{
    if s.len() > 0 {
        let d = s.drop_last();
        assert(settled(d)) by {
            assert forall|i: int| 0 < i < d.len() && #[trigger] d[i] == ROUND_ROCK implies d[i
                - 1] != GROUND by {
                assert(d[i] == s[i] && d[i - 1] == s[i - 1]);
            }
        }
        lemma_settled_fixed(d);
        if s.last() == ROUND_ROCK {
            if d.len() > 0 {
                assert(s[s.len() - 1] == ROUND_ROCK);
                assert(d.last() != GROUND);
            }
            assert(trailing_ground(d) == 0);
            assert(roll_line(s) =~= s);
        } else {
            assert(roll_line(s) =~= s);
        }
    }
}

/// Rolling a line twice gives the same line as rolling it once.
pub proof fn lemma_roll_line_idempotent(s: Seq<u8>)
    ensures
        roll_line(roll_line(s)) == roll_line(s),
{
    lemma_roll_settled(s);
    lemma_settled_fixed(roll_line(s));
}

/// A direction in which the rocks roll.
#[derive(Debug, Clone, Copy, PartialEq, Eq, Structural)]
pub enum Direction {
    North,
    West,
    South,
    East,
}

/// A board is a sequence of rows of cells.
pub open spec fn cols_of(m: Seq<Seq<u8>>) -> int {
    if m.len() == 0 {
        0
    } else {
        m[0].len() as int
    }
}

/// All rows have the same length.
pub open spec fn rect(m: Seq<Seq<u8>>) -> bool {
    forall|r: int| 0 <= r < m.len() ==> (#[trigger] m[r]).len() == cols_of(m)
}

/// The cells of a board of rows.
pub open spec fn cells(g: Seq<Vec<u8>>) -> Seq<Seq<u8>> {
    g.map_values(|v: Vec<u8>| v@)
}

/// How many lines a board has in direction `dir`: its columns or its rows.
pub open spec fn line_count(dir: Direction, rows: int, cols: int) -> int {
    match dir {
        Direction::North | Direction::South => cols,
        _ => rows,
    }
}

/// How long a line in direction `dir` is.
pub open spec fn line_len(dir: Direction, rows: int, cols: int) -> int {
    match dir {
        Direction::North | Direction::South => rows,
        _ => cols,
    }
}

/// Row of position `k` of line `l`; lines are read in the direction the rocks roll toward
/// their start.
pub open spec fn cell_row(dir: Direction, rows: int, l: int, k: int) -> int {
    match dir {
        Direction::North => k,
        Direction::South => rows - 1 - k,
        _ => l,
    }
}

/// Column of position `k` of line `l`.
pub open spec fn cell_col(dir: Direction, cols: int, l: int, k: int) -> int {
    match dir {
        Direction::West => k,
        Direction::East => cols - 1 - k,
        _ => l,
    }
}

/// The line through cell `(r, c)`.
pub open spec fn line_index(dir: Direction, r: int, c: int) -> int {
    match dir {
        Direction::North | Direction::South => c,
        _ => r,
    }
}

/// The position of cell `(r, c)` on its line.
pub open spec fn line_pos(dir: Direction, rows: int, cols: int, r: int, c: int) -> int {
    match dir {
        Direction::North => r,
        Direction::South => rows - 1 - r,
        Direction::West => c,
        Direction::East => cols - 1 - c,
    }
}

/// Line `l` of `m` in direction `dir`, first cell where the rocks roll to.
pub open spec fn line_of(m: Seq<Seq<u8>>, dir: Direction, l: int) -> Seq<u8> {
    Seq::new(
        line_len(dir, m.len() as int, cols_of(m)) as nat,
        |k: int| m[cell_row(dir, m.len() as int, l, k)][cell_col(dir, cols_of(m), l, k)],
    )
}

/// `m` with every round rock rolled as far as it goes in direction `dir`.
pub open spec fn roll_grid(m: Seq<Seq<u8>>, dir: Direction) -> Seq<Seq<u8>> {
    Seq::new(
        m.len(),
        |r: int|
            Seq::new(
                cols_of(m) as nat,
                |c: int|
                    roll_line(line_of(m, dir, line_index(dir, r, c)))[line_pos(
                        dir,
                        m.len() as int,
                        cols_of(m),
                        r,
                        c,
                    )],
            ),
    )
}

/// One spin: north, west, south, east.
pub open spec fn cycle_grid(m: Seq<Seq<u8>>) -> Seq<Seq<u8>> {
    roll_grid(
        roll_grid(roll_grid(roll_grid(m, Direction::North), Direction::West), Direction::South),
        Direction::East,
    )
}

/// `m` after `n` spins.
pub open spec fn cycles(m: Seq<Seq<u8>>, n: nat) -> Seq<Seq<u8>>
    decreases n,
{
    if n == 0 {
        m
    } else {
        cycle_grid(cycles(m, (n - 1) as nat))
    }
}

fn cell_at(dir: Direction, rows: usize, cols: usize, l: usize, k: usize) -> (rc: (usize, usize))
    requires
        l < line_count(dir, rows as int, cols as int),
        k < line_len(dir, rows as int, cols as int),
    ensures
        rc.0 == cell_row(dir, rows as int, l as int, k as int),
        rc.1 == cell_col(dir, cols as int, l as int, k as int),
        rc.0 < rows,
        rc.1 < cols,
{
    match dir {
        Direction::North => (k, l),
        Direction::South => (rows - 1 - k, l),
        Direction::West => (l, k),
        Direction::East => (l, cols - 1 - k),
    }
}

/// Rolls the rocks of line `l` in direction `dir`, leaving every other cell as it is.
#[verifier::rlimit(50)]
fn roll_line_at(grid: &mut Vec<Vec<u8>>, dir: Direction, l: usize)
    requires
        rect(cells(old(grid)@)),
        old(grid).len() > 0,
        l < line_count(dir, old(grid).len() as int, cols_of(cells(old(grid)@))),
    ensures
        rect(cells(final(grid)@)),
        final(grid).len() == old(grid).len(),
        cols_of(cells(final(grid)@)) == cols_of(cells(old(grid)@)),
        line_of(cells(final(grid)@), dir, l as int) == roll_line(
            line_of(cells(old(grid)@), dir, l as int),
        ),
        forall|r: int, c: int|
            0 <= r < old(grid).len() && 0 <= c < cols_of(cells(old(grid)@)) && line_index(dir, r, c)
                != l ==> #[trigger] final(grid)@[r]@[c] == old(grid)@[r]@[c],
{
    let ghost g0 = cells(grid@);
    let ghost s = line_of(g0, dir, l as int);
    let rows = grid.len();
    let cols = grid[0].len();
    assert(cells(grid@)[0] == grid@[0]@);
    let n: usize = match dir {
        Direction::North | Direction::South => rows,
        _ => cols,
    };
    proof {
        assert forall|r: int| 0 <= r < rows implies (#[trigger] grid@[r])@.len() == cols by {
            assert(cells(grid@)[r] == grid@[r]@);
        }
    }
    let mut free: usize = 0;
    let mut k: usize = 0;
    while k < n
        invariant
            rows == grid.len(),
            rows == g0.len(),
            cols == cols_of(g0),
            rect(g0),
            n == line_len(dir, rows as int, cols as int),
            l < line_count(dir, rows as int, cols as int),
            s == line_of(g0, dir, l as int),
            k <= n,
            forall|r: int| 0 <= r < rows ==> (#[trigger] grid@[r])@.len() == cols,
            forall|r: int, c: int|
                0 <= r < rows && 0 <= c < cols && line_index(dir, r, c) != l
                    ==> #[trigger] grid@[r]@[c] == g0[r][c],
            forall|j: int|
                k <= j < n ==> #[trigger] grid@[cell_row(dir, rows as int, l as int, j)]@[cell_col(
                    dir,
                    cols as int,
                    l as int,
                    j,
                )] == s[j],
            line_of(cells(grid@), dir, l as int).take(k as int) == roll_line(s.take(k as int)),
            free == k - trailing_ground(roll_line(s.take(k as int))),
        decreases n - k,
    {
        let ghost cur = line_of(cells(grid@), dir, l as int);
        let ghost p = roll_line(s.take(k as int));
        proof {
            assert(s.take(k as int + 1).drop_last() == s.take(k as int));
            lemma_roll_len(s.take(k as int));
            lemma_trailing(p);
        }
        let (r, c) = cell_at(dir, rows, cols, l, k);
        let x = grid[r][c];
        assert(x == s[k as int]);
        if x == ROUND_ROCK {
            if free < k {
                let (fr, fc) = cell_at(dir, rows, cols, l, free);
                grid[fr][fc] = ROUND_ROCK;
                grid[r][c] = GROUND;
            }
            free = free + 1;
        } else if x != GROUND {
            free = k + 1;
        }
        proof {
            let nxt = line_of(cells(grid@), dir, l as int);
            let q = roll_line(s.take(k as int + 1));
            lemma_roll_len(s.take(k as int + 1));
            assert forall|j: int| 0 <= j <= k implies #[trigger] nxt[j] == q[j] by {
                if j < k {
                    assert(cur.take(k as int)[j] == p[j]);
                }
            }
            assert(nxt.take(k as int + 1) =~= q);
            lemma_trailing(q);
            if x == ROUND_ROCK {
                lemma_trailing_is(q, trailing_ground(p) as int);
            } else if x == GROUND {
                lemma_trailing_is(q, trailing_ground(p) as int + 1);
            } else {
                lemma_trailing_is(q, 0);
            }
        }
        k += 1;
    }
    proof {
        assert(s.take(n as int) == s);
        assert(line_of(cells(grid@), dir, l as int).take(n as int) == line_of(cells(grid@), dir, l as int));
    }
}

/// Line `l` of a rolled board is the rolled line `l`.
pub proof fn lemma_line_of_rolled(m: Seq<Seq<u8>>, dir: Direction, l: int)
    requires
        rect(m),
        0 <= l < line_count(dir, m.len() as int, cols_of(m)),
    ensures
        line_of(roll_grid(m, dir), dir, l) == roll_line(line_of(m, dir, l)),
{
    let m1 = roll_grid(m, dir);
    let s = line_of(m, dir, l);
    lemma_roll_len(s);
    assert(m1.len() > 0 ==> m1[0].len() == cols_of(m));
    assert(cols_of(m1) == cols_of(m));
    assert(line_of(m1, dir, l) =~= roll_line(s));
}

/// Rolling a board twice in one direction gives the same board as rolling it once.
pub proof fn lemma_roll_idempotent(m: Seq<Seq<u8>>, dir: Direction)
    requires
        rect(m),
    ensures
        roll_grid(roll_grid(m, dir), dir) == roll_grid(m, dir),
{
    let m1 = roll_grid(m, dir);
    assert(m1.len() > 0 ==> m1[0].len() == cols_of(m));
    assert(cols_of(m1) == cols_of(m));
    let m2 = roll_grid(m1, dir);
    assert forall|r: int| 0 <= r < m2.len() implies #[trigger] m2[r] == m1[r] by {
        assert forall|c: int| 0 <= c < cols_of(m) implies #[trigger] m2[r][c] == m1[r][c] by {
            let li = line_index(dir, r, c);
            lemma_line_of_rolled(m, dir, li);
            lemma_roll_line_idempotent(line_of(m, dir, li));
        }
        assert(m2[r] =~= m1[r]);
    }
    assert(m2 =~= m1);
}

pub proof fn lemma_roll_grid_rect(m: Seq<Seq<u8>>, dir: Direction)
    ensures
        rect(roll_grid(m, dir)),
        roll_grid(m, dir).len() == m.len(),
        cols_of(roll_grid(m, dir)) == cols_of(m),
{
    let m1 = roll_grid(m, dir);
    assert(m1.len() > 0 ==> m1[0].len() == cols_of(m));
}

/// Rolls every rock of the board as far as it goes in direction `dir`.
pub fn roll(grid: &mut Vec<Vec<u8>>, dir: Direction)
    requires
        rect(cells(old(grid)@)),
    ensures
        cells(final(grid)@) == roll_grid(cells(old(grid)@), dir),
{
    let ghost g0 = cells(grid@);
    proof {
        lemma_roll_grid_rect(g0, dir);
    }
    if grid.len() == 0 {
        assert(cells(grid@) =~= roll_grid(g0, dir));
        return;
    }
    let rows = grid.len();
    let cols = grid[0].len();
    assert(cells(grid@)[0] == grid@[0]@);
    let count: usize = match dir {
        Direction::North | Direction::South => cols,
        _ => rows,
    };
    let mut l: usize = 0;
    while l < count
        invariant
            rows == grid.len(),
            rows == g0.len(),
            rows > 0,
            cols == cols_of(g0),
            rect(g0),
            count == line_count(dir, rows as int, cols as int),
            l <= count,
            rect(cells(grid@)),
            cols_of(cells(grid@)) == cols,
            forall|l2: int|
                0 <= l2 < l ==> #[trigger] line_of(cells(grid@), dir, l2) == roll_line(
                    line_of(g0, dir, l2),
                ),
            forall|r: int, c: int|
                0 <= r < rows && 0 <= c < cols && line_index(dir, r, c) >= l
                    ==> #[trigger] grid@[r]@[c] == g0[r][c],
        decreases count - l,
    {
        let ghost prev = cells(grid@);
        roll_line_at(grid, dir, l);
        proof {
            let now = cells(grid@);
            assert forall|r: int| 0 <= r < rows implies #[trigger] now[r] == grid@[r]@ by {}
            assert forall|r: int| 0 <= r < rows implies #[trigger] prev[r].len() == cols by {}
            assert forall|l2: int| 0 <= l2 <= l implies #[trigger] line_of(now, dir, l2)
                == roll_line(line_of(g0, dir, l2)) by {
                if l2 < l {
                    assert(line_of(now, dir, l2) =~= line_of(prev, dir, l2));
                } else {
                    assert(line_of(prev, dir, l2) =~= line_of(g0, dir, l2));
                }
            }
        }
        l += 1;
    }
    proof {
        let now = cells(grid@);
        let want = roll_grid(g0, dir);
        assert forall|r: int| 0 <= r < rows implies #[trigger] now[r] == want[r] by {
            assert forall|c: int| 0 <= c < cols implies #[trigger] now[r][c] == want[r][c] by {
                let li = line_index(dir, r, c);
                let k = line_pos(dir, rows as int, cols as int, r, c);
                assert(line_of(now, dir, li)[k] == now[r][c]);
            }
            assert(now[r] =~= want[r]);
        }
        assert(now =~= want);
    }
}

pub fn roll_north(grid: &mut Vec<Vec<u8>>)
    requires
        rect(cells(old(grid)@)),
    ensures
        cells(final(grid)@) == roll_grid(cells(old(grid)@), Direction::North),
{
    roll(grid, Direction::North);
}

pub fn roll_west(grid: &mut Vec<Vec<u8>>)
    requires
        rect(cells(old(grid)@)),
    ensures
        cells(final(grid)@) == roll_grid(cells(old(grid)@), Direction::West),
{
    roll(grid, Direction::West);
}

pub fn roll_south(grid: &mut Vec<Vec<u8>>)
    requires
        rect(cells(old(grid)@)),
    ensures
        cells(final(grid)@) == roll_grid(cells(old(grid)@), Direction::South),
{
    roll(grid, Direction::South);
}

pub fn roll_east(grid: &mut Vec<Vec<u8>>)
    requires
        rect(cells(old(grid)@)),
    ensures
        cells(final(grid)@) == roll_grid(cells(old(grid)@), Direction::East),
{
    roll(grid, Direction::East);
}

/// One spin: rolls north, west, south and east in turn.
pub fn cycle(grid: &mut Vec<Vec<u8>>)
    requires
        rect(cells(old(grid)@)),
    ensures
        cells(final(grid)@) == cycle_grid(cells(old(grid)@)),
        rect(cells(final(grid)@)),
{
    let ghost g0 = cells(grid@);
    roll_north(grid);
    proof {
        lemma_roll_grid_rect(g0, Direction::North);
    }
    roll_west(grid);
    proof {
        lemma_roll_grid_rect(roll_grid(g0, Direction::North), Direction::West);
    }
    roll_south(grid);
    proof {
        lemma_roll_grid_rect(
            roll_grid(roll_grid(g0, Direction::North), Direction::West),
            Direction::South,
        );
    }
    roll_east(grid);
    proof {
        lemma_roll_grid_rect(
            roll_grid(
                roll_grid(roll_grid(g0, Direction::North), Direction::West),
                Direction::South,
            ),
            Direction::East,
        );
    }
}

/// Number of round rocks in `s`.
pub open spec fn rocks_in(s: Seq<u8>) -> nat
    decreases s.len(),
{
    if s.len() == 0 {
        0
    } else {
        rocks_in(s.drop_last()) + if s.last() == ROUND_ROCK {
            1nat
        } else {
            0nat
        }
    }
}

/// Sum over the rows of the rocks in the row times the row's distance from the bottom edge
/// (the last row counts once).
pub open spec fn load(m: Seq<Seq<u8>>) -> nat
    decreases m.len(),
{
    if m.len() == 0 {
        0
    } else {
        load(m.drop_first()) + m.len() * rocks_in(m[0])
    }
}

fn count_rocks(row: &Vec<u8>) -> (n: usize)
    ensures
        n == rocks_in(row@),
{
    let mut n: usize = 0;
    let mut i: usize = 0;
    while i < row.len()
        invariant
            i <= row.len(),
            n == rocks_in(row@.take(i as int)),
            n <= i,
        decreases row.len() - i,
    {
        assert(row@.take(i + 1).drop_last() == row@.take(i as int));
        if row[i] == ROUND_ROCK {
            n += 1;
        }
        i += 1;
    }
    assert(row@.take(row.len() as int) == row@);
    n
}

/// The load on the north edge, or `None` when it does not fit in 64 bits.
pub fn part1_load(grid: &Vec<Vec<u8>>) -> (r: Option<u64>)
    ensures
        r == (if load(cells(grid@)) <= u64::MAX {
            Some(load(cells(grid@)) as u64)
        } else {
            None::<u64>
        }),
{
    let ghost m = cells(grid@);
    let rows = grid.len();
    let mut total: u64 = 0;
    let mut r: usize = rows;
    assert(m.skip(rows as int).len() == 0);
    while r > 0
        invariant
            r <= rows,
            rows == grid.len(),
            m == cells(grid@),
            total == load(m.skip(r as int)),
        decreases r,
    {
        let n = count_rocks(&grid[r - 1]);
        assert(m.skip(r - 1).drop_first() == m.skip(r as int));
        assert(m.skip(r - 1)[0] == grid@[r - 1]@);
        assert(m.skip(r - 1).len() == rows - r + 1);
        let weight = (rows - r + 1) as u64;
        let step = match weight.checked_mul(n as u64) {
            Some(v) => v,
            None => {
                proof {
                    lemma_load_suffix(m, r - 1);
                }
                return None;
            },
        };
        match total.checked_add(step) {
            Some(t) => {
                total = t;
            },
            None => {
                proof {
                    lemma_load_suffix(m, r - 1);
                }
                return None;
            },
        }
        r -= 1;
    }
    assert(m.skip(0) == m);
    Some(total)
}

/// The load of a suffix of the rows is at most the load of the board.
pub proof fn lemma_load_suffix(m: Seq<Seq<u8>>, k: int)
    requires
        0 <= k <= m.len(),
    ensures
        load(m.skip(k)) <= load(m),
    decreases k,
{
    if k > 0 {
        assert(m.skip(k) == m.drop_first().skip(k - 1));
        lemma_load_suffix(m.drop_first(), k - 1);
    } else {
        assert(m.skip(0) == m);
    }
}

/// Boards that agree after `a` and `b` spins agree after `a + j` and `b + j` spins.
pub proof fn lemma_cycles_shift(m: Seq<Seq<u8>>, a: nat, b: nat, j: nat)
    requires
        cycles(m, a) == cycles(m, b),
    ensures
        cycles(m, a + j) == cycles(m, b + j),
    decreases j,
{
    if j > 0 {
        lemma_cycles_shift(m, a, b, (j - 1) as nat);
        assert(cycles(m, a + j) == cycle_grid(cycles(m, (a + j - 1) as nat)));
        assert(cycles(m, b + j) == cycle_grid(cycles(m, (b + j - 1) as nat)));
    }
}

/// Once the board after `s` spins comes back after `s + p` spins, it repeats with period `p`.
pub proof fn lemma_cycles_repeat(m: Seq<Seq<u8>>, s: nat, p: nat, k: nat, r: nat)
    requires
        p > 0,
        cycles(m, s) == cycles(m, s + p),
    ensures
        cycles(m, s + k * p + r) == cycles(m, s + r),
    decreases k,
{
    if k > 0 {
        lemma_cycles_repeat(m, s, p, (k - 1) as nat, r);
        assert(k * p == (k - 1) * p + p) by (nonlinear_arith)
            requires
                k > 0,
        ;
        assert((k - 1) * p >= 0) by (nonlinear_arith)
            requires
                k > 0,
                p > 0,
        ;
        let j = ((k - 1) * p + r) as nat;
        lemma_cycles_shift(m, s + p, s, j);
        assert(s + p + j == s + k * p + r);
    } else {
        assert(k * p == 0) by (nonlinear_arith)
            requires
                k == 0,
        ;
    }
}

/// The board after `target` spins is known from the first `n` spins: either `target` is
/// among them or two of them gave the same board.
pub open spec fn found_within(m: Seq<Seq<u8>>, target: nat, n: nat) -> bool {
    target <= n || exists|a: nat, b: nat| a < b <= n && #[trigger] cycles(m, a) == #[trigger] cycles(m, b)
}

/// A copy of the board.
pub fn copy_grid(grid: &Vec<Vec<u8>>) -> (r: Vec<Vec<u8>>)
    ensures
        cells(r@) == cells(grid@),
{
    let mut out: Vec<Vec<u8>> = Vec::new();
    let mut i: usize = 0;
    while i < grid.len()
        invariant
            i <= grid.len(),
            out.len() == i,
            forall|k: int| 0 <= k < i ==> (#[trigger] out@[k])@ == grid@[k]@,
        decreases grid.len() - i,
    {
        let mut row: Vec<u8> = Vec::new();
        let mut j: usize = 0;
        while j < grid[i].len()
            invariant
                i < grid.len(),
                j <= grid[i as int].len(),
                row@ == grid@[i as int]@.take(j as int),
            decreases grid[i as int].len() - j,
        {
            row.push(grid[i][j]);
            j += 1;
            assert(row@ =~= grid@[i as int]@.take(j as int));
        }
        assert(grid@[i as int]@.take(j as int) =~= grid@[i as int]@);
        out.push(row);
        i += 1;
    }
    assert(cells(out@) =~= cells(grid@));
    out
}

/// Whether two boards hold the same cells.
pub fn same_grid(a: &Vec<Vec<u8>>, b: &Vec<Vec<u8>>) -> (r: bool)
    ensures
        r == (cells(a@) == cells(b@)),
{
    if a.len() != b.len() {
        assert(cells(a@).len() != cells(b@).len());
        return false;
    }
    let mut i: usize = 0;
    while i < a.len()
        invariant
            a.len() == b.len(),
            i <= a.len(),
            forall|k: int| 0 <= k < i ==> (#[trigger] a@[k])@ == b@[k]@,
        decreases a.len() - i,
    {
        if a[i].len() != b[i].len() {
            assert(cells(a@)[i as int] != cells(b@)[i as int]);
            return false;
        }
        let mut j: usize = 0;
        while j < a[i].len()
            invariant
                a.len() == b.len(),
                i < a.len(),
                a[i as int].len() == b[i as int].len(),
                j <= a[i as int].len(),
                forall|k: int| 0 <= k < j ==> a[i as int]@[k] == b[i as int]@[k],
            decreases a[i as int].len() - j,
        {
            if a[i][j] != b[i][j] {
                assert(cells(a@)[i as int][j as int] != cells(b@)[i as int][j as int]);
                return false;
            }
            j += 1;
        }
        assert(a@[i as int]@ =~= b@[i as int]@);
        i += 1;
    }
    assert(cells(a@) =~= cells(b@));
    true
}

/// The load after `target` spins, found by spinning at most `max_cycles` times: once a board
/// comes back, the spins repeat with the period between its two sightings.  `None` when
/// neither `target` nor a repeat is reached within `max_cycles` spins, or when the load does
/// not fit in 64 bits.
pub fn load_after_cycles(grid: Vec<Vec<u8>>, target: usize, max_cycles: usize) -> (r: Option<u64>)
    requires
        rect(cells(grid@)),
    ensures
        r.is_some() <==> found_within(cells(grid@), target as nat, max_cycles as nat) && load(
            cycles(cells(grid@), target as nat),
        ) <= u64::MAX,
        r matches Some(x) ==> x == load(cycles(cells(grid@), target as nat)),
{
    let ghost m0 = cells(grid@);
    let mut board = grid;
    if target == 0 {
        return part1_load(&board);
    }
    let mut history: Vec<Vec<Vec<u8>>> = Vec::new();
    history.push(copy_grid(&board));
    let mut iter: usize = 0;
    while iter < max_cycles
        invariant
            iter <= max_cycles,
            iter < target,
            history.len() == iter + 1,
            forall|k: int| 0 <= k <= iter ==> cells((#[trigger] history@[k])@) == cycles(m0, k as nat),
            cells(board@) == cycles(m0, iter as nat),
            rect(cells(board@)),
            m0 == cells(grid@),
            forall|a: nat, b: nat| a < b <= iter ==> #[trigger] cycles(m0, a) != #[trigger] cycles(m0, b),
        decreases max_cycles - iter,
    {
        cycle(&mut board);
        iter += 1;
        assert(cells(board@) == cycles(m0, iter as nat));
        if iter == target {
            proof {
                assert(found_within(m0, target as nat, max_cycles as nat));
            }
            return part1_load(&board);
        }
        let mut s: usize = 0;
        while s < history.len()
            invariant
                s <= history.len(),
                history.len() == iter,
                iter < target,
                iter <= max_cycles,
                m0 == cells(grid@),
                forall|k: int| 0 <= k < iter ==> cells((#[trigger] history@[k])@) == cycles(m0, k as nat),
                cells(board@) == cycles(m0, iter as nat),
                forall|a: nat| a < s ==> #[trigger] cycles(m0, a) != cycles(m0, iter as nat),
            decreases history.len() - s,
        {
            if same_grid(&history[s], &board) {
                assert(cycles(m0, s as nat) == cycles(m0, iter as nat));
                let p = iter - s;
                let idx = s + (target - s) % p;
                proof {
                    assert(cycles(m0, s as nat) == cycles(m0, (s + p) as nat));
                    let k = ((target - s) / p as int) as nat;
                    let rem = ((target - s) % p as int) as nat;
                    lemma_fundamental_div_mod((target - s) as int, p as int);
                    assert((target - s) / p as int >= 0) by (nonlinear_arith)
                        requires
                            target - s >= 0,
                            p > 0,
                    ;
                    lemma_cycles_repeat(m0, s as nat, p as nat, k, rem);
                    assert(s + k * p + rem == target);
                    assert(found_within(m0, target as nat, max_cycles as nat)) by {
                        let a = s as nat;
                        let b = iter as nat;
                        assert(a < b <= max_cycles && cycles(m0, a) == cycles(m0, b));
                    }
                }
                return part1_load(&history[idx]);
            }
            s += 1;
        }
        history.push(copy_grid(&board));
        proof {
            assert forall|a: nat, b: nat| a < b <= iter implies #[trigger] cycles(m0, a)
                != #[trigger] cycles(m0, b) by {
                if b == iter {
                    assert(cycles(m0, a) != cycles(m0, iter as nat));
                }
            }
        }
    }
    proof {
        assert(!found_within(m0, target as nat, max_cycles as nat));
    }
    None
}

/// Both answers for the platform of `input`: the load on the north edge once the rocks roll
/// north, and the load after a billion spins, looking for a repeated board within `max_cycles`
/// spins.  `None` where the lines differ in length, a load does not fit in 64 bits, or no
/// repeat turns up in time.
pub fn solve(input: &[u8], max_cycles: usize) -> (r: Option<(u64, u64)>)
    ensures
        r matches Some((a, b)) ==> rect(crate::text::lines_of(input@)) && a == load(
            roll_grid(crate::text::lines_of(input@), Direction::North),
        ) && b == load(cycles(crate::text::lines_of(input@), 1_000_000_000)),
        r.is_some() <==> rect(crate::text::lines_of(input@)) && load(
            roll_grid(crate::text::lines_of(input@), Direction::North),
        ) <= u64::MAX && found_within(crate::text::lines_of(input@), 1_000_000_000, max_cycles as nat)
            && load(cycles(crate::text::lines_of(input@), 1_000_000_000)) <= u64::MAX,
{
    let grid = crate::text::lines(input);
    let ghost m = cells(grid@);
    assert(m == crate::text::lines_of(input@));
    if grid.len() > 0 {
        let cols = grid[0].len();
        let mut i: usize = 0;
        while i < grid.len()
            invariant
                i <= grid.len(),
                grid.len() > 0,
                m == cells(grid@),
                m == crate::text::lines_of(input@),
                cols == grid@[0]@.len(),
                forall|k: int| 0 <= k < i ==> (#[trigger] grid@[k])@.len() == cols,
            decreases grid.len() - i,
        {
            if grid[i].len() != cols {
                proof {
                    assert(m[i as int] == grid@[i as int]@);
                    assert(m[0] == grid@[0]@);
                    assert(!rect(m));
                }
                return None;
            }
            i += 1;
        }
        assert forall|k: int| 0 <= k < m.len() implies (#[trigger] m[k]).len() == cols_of(m) by {
            assert(m[k] == grid@[k]@);
            assert(m[0] == grid@[0]@);
        }
    }
    assert(rect(m));
    let mut north = copy_grid(&grid);
    roll_north(&mut north);
    let a = match part1_load(&north) {
        Some(a) => a,
        None => {
            return None;
        },
    };
    let b = match load_after_cycles(grid, 1_000_000_000, max_cycles) {
        Some(b) => b,
        None => {
            return None;
        },
    };
    Some((a, b))
}

} // verus!
