//! A maze of pipes: the loop through the start cell, its length and the cells it encloses.

use vstd::prelude::*;

verus! {

pub const NORTH_SOUTH: u8 = 0x7c;
pub const EAST_WEST: u8 = 0x2d;
pub const NORTH_EAST: u8 = 0x4c;
pub const NORTH_WEST: u8 = 0x4a;
pub const SOUTH_EAST: u8 = 0x46;
pub const SOUTH_WEST: u8 = 0x37;
pub const GROUND: u8 = 0x2e;
pub const START: u8 = 0x53;

pub open spec fn opens_north(b: u8) -> bool {
    b == NORTH_SOUTH || b == NORTH_EAST || b == NORTH_WEST
}

pub open spec fn opens_south(b: u8) -> bool {
    b == NORTH_SOUTH || b == SOUTH_EAST || b == SOUTH_WEST
}

pub open spec fn opens_west(b: u8) -> bool {
    b == EAST_WEST || b == NORTH_WEST || b == SOUTH_WEST
}

pub open spec fn opens_east(b: u8) -> bool {
    b == EAST_WEST || b == NORTH_EAST || b == SOUTH_EAST
}

/// Every row is as long as the first.
pub open spec fn rect(m: Seq<Vec<u8>>) -> bool {
    m.len() > 0 && forall|r: int| 0 <= r < m.len() ==> (#[trigger] m[r])@.len() == m[0]@.len()
}

pub open spec fn width(m: Seq<Vec<u8>>) -> int {
    m[0]@.len() as int
}

/// Position of the first cell, row by row, that holds `target`.
pub fn find_coords(map: &Vec<Vec<u8>>, target: u8) -> (r: Option<(usize, usize)>)
    ensures
        r matches Some((row, col)) ==> row < map.len() && col < map@[row as int]@.len()
            && map@[row as int]@[col as int] == target && forall|r2: int, c2: int|
            0 <= r2 < map.len() && 0 <= c2 < map@[r2]@.len() && (r2 < row || (r2 == row && c2
                < col)) ==> #[trigger] map@[r2]@[c2] != target,
        r.is_none() ==> forall|r2: int, c2: int|
            0 <= r2 < map.len() && 0 <= c2 < map@[r2]@.len() ==> #[trigger] map@[r2]@[c2] != target,
{
    let mut row: usize = 0;
    while row < map.len()
        invariant
            row <= map.len(),
            forall|r2: int, c2: int|
                0 <= r2 < row && 0 <= c2 < map@[r2]@.len() ==> #[trigger] map@[r2]@[c2] != target,
        decreases map.len() - row,
    {
        let mut col: usize = 0;
        while col < map[row].len()
            invariant
                row < map.len(),
                col <= map@[row as int]@.len(),
                forall|r2: int, c2: int|
                    0 <= r2 < row && 0 <= c2 < map@[r2]@.len() ==> #[trigger] map@[r2]@[c2]
                        != target,
                forall|c2: int| 0 <= c2 < col ==> map@[row as int]@[c2] != target,
            decreases map@[row as int]@.len() - col,
        {
            if map[row][col] == target {
                return Some((row, col));
            }
            col += 1;
        }
        row += 1;
    }
    None
}

/// The pipe that joins exactly the two given directions.
pub open spec fn pipe_for(n: bool, s: bool, w: bool, e: bool) -> Option<u8> {
    if n && s && !w && !e {
        Some(NORTH_SOUTH)
    } else if n && !s && w && !e {
        Some(NORTH_WEST)
    } else if n && !s && !w && e {
        Some(NORTH_EAST)
    } else if !n && s && w && !e {
        Some(SOUTH_WEST)
    } else if !n && s && !w && e {
        Some(SOUTH_EAST)
    } else if !n && !s && w && e {
        Some(EAST_WEST)
    } else {
        None
    }
}

/// The pipe that the cell `p` must hold to join the neighbours that open toward it.
pub open spec fn start_pipe(m: Seq<Vec<u8>>, p: (int, int)) -> Option<u8> {
    let (r, c) = p;
    pipe_for(
        r > 0 && opens_south(m[r - 1]@[c]),
        r + 1 < m.len() && opens_north(m[r + 1]@[c]),
        c > 0 && opens_east(m[r]@[c - 1]),
        c + 1 < width(m) && opens_west(m[r]@[c + 1]),
    )
}

/// Replaces the start cell `(row, col)` by the pipe that joins its neighbours; `false`, with the
/// map unchanged, where no pipe joins exactly two of them.
pub fn start_to_pipe(map: &mut Vec<Vec<u8>>, row: usize, col: usize) -> (ok: bool)
    requires
        rect(old(map)@),
        row < old(map).len(),
        col < width(old(map)@),
    ensures
        ok == start_pipe(old(map)@, (row as int, col as int)).is_some(),
        !ok ==> final(map)@ == old(map)@,
        rect(final(map)@),
        final(map).len() == old(map).len(),
        width(final(map)@) == width(old(map)@),
        forall|r: int, c: int|
            0 <= r < old(map).len() && 0 <= c < width(old(map)@) && (r != row || c != col)
                ==> #[trigger] final(map)@[r]@[c] == old(map)@[r]@[c],
        ok ==> final(map)@[row as int]@[col as int] == start_pipe(old(map)@, (row as int, col as int))->Some_0,
{
    let ghost m0 = map@;
    assert(map@[0]@.len() == width(map@));
    let rows = map.len();
    let cols = map[0].len();
    assert(map@[row as int]@.len() == cols);
    let has_north = row > 0 && {
        let b = map[row - 1][col];
        b == NORTH_SOUTH || b == SOUTH_EAST || b == SOUTH_WEST
    };
    let has_south = row + 1 < rows && {
        let b = map[row + 1][col];
        b == NORTH_SOUTH || b == NORTH_EAST || b == NORTH_WEST
    };
    let has_west = col > 0 && {
        let b = map[row][col - 1];
        b == EAST_WEST || b == NORTH_EAST || b == SOUTH_EAST
    };
    let has_east = col + 1 < cols && {
        let b = map[row][col + 1];
        b == EAST_WEST || b == NORTH_WEST || b == SOUTH_WEST
    };
    let pipe = if has_north && has_south && !has_west && !has_east {
        NORTH_SOUTH
    } else if has_north && !has_south && has_west && !has_east {
        NORTH_WEST
    } else if has_north && !has_south && !has_west && has_east {
        NORTH_EAST
    } else if !has_north && has_south && has_west && !has_east {
        SOUTH_WEST
    } else if !has_north && has_south && !has_west && has_east {
        SOUTH_EAST
    } else if !has_north && !has_south && has_west && has_east {
        EAST_WEST
    } else {
        return false;
    };
    map[row][col] = pipe;
    proof {
        assert forall|r: int| 0 <= r < map.len() implies (#[trigger] map@[r])@.len() == map@[0]@.len() by {
            assert(m0[r]@.len() == m0[0]@.len());
        }
    }
    true
}

/// The neighbours of `(row, col)` that its pipe opens toward, north, south, west and east in
/// that order, where they lie on the map.
pub open spec fn offsets_spec(m: Seq<Vec<u8>>, p: (int, int)) -> Seq<(int, int)> {
    let (r, c) = p;
    let b = m[r]@[c];
    let n: Seq<(int, int)> = if opens_north(b) && r > 0 {
        seq![(r - 1, c)]
    } else {
        seq![]
    };
    let s: Seq<(int, int)> = if opens_south(b) && r + 1 < m.len() {
        seq![(r + 1, c)]
    } else {
        seq![]
    };
    let w: Seq<(int, int)> = if opens_west(b) && c > 0 {
        seq![(r, c - 1)]
    } else {
        seq![]
    };
    let e: Seq<(int, int)> = if opens_east(b) && c + 1 < width(m) {
        seq![(r, c + 1)]
    } else {
        seq![]
    };
    n + s + w + e
}

pub open spec fn pairs(v: Seq<(usize, usize)>) -> Seq<(int, int)> {
    v.map_values(|p: (usize, usize)| (p.0 as int, p.1 as int))
}

/// The neighbours that the pipe at `(row, col)` leads to.
pub fn offsets(map: &Vec<Vec<u8>>, row: usize, col: usize) -> (r: Vec<(usize, usize)>)
    requires
        rect(map@),
        row < map.len(),
        col < width(map@),
    ensures
        pairs(r@) == offsets_spec(map@, (row as int, col as int)),
        forall|i: int| 0 <= i < r@.len() ==> (#[trigger] r@[i]).0 < map.len() && r@[i].1 < width(map@),
{
    assert(map@[0]@.len() == width(map@));
    assert(map@[row as int]@.len() == width(map@));
    let cols = map[0].len();
    let b = map[row][col];
    let mut out: Vec<(usize, usize)> = Vec::new();
    if (b == NORTH_SOUTH || b == NORTH_WEST || b == NORTH_EAST) && row > 0 {
        out.push((row - 1, col));
    }
    let ghost n = pairs(out@);
    if (b == NORTH_SOUTH || b == SOUTH_WEST || b == SOUTH_EAST) && row + 1 < map.len() {
        out.push((row + 1, col));
    }
    let ghost ns = pairs(out@);
    if (b == EAST_WEST || b == NORTH_WEST || b == SOUTH_WEST) && col > 0 {
        out.push((row, col - 1));
    }
    let ghost nsw = pairs(out@);
    if (b == EAST_WEST || b == NORTH_EAST || b == SOUTH_EAST) && col + 1 < cols {
        out.push((row, col + 1));
    }
    proof {
        let r = row as int;
        let c = col as int;
        let nn: Seq<(int, int)> = if opens_north(b) && r > 0 { seq![(r - 1, c)] } else { seq![] };
        let ss: Seq<(int, int)> = if opens_south(b) && r + 1 < map.len() { seq![(r + 1, c)] } else { seq![] };
        let ww: Seq<(int, int)> = if opens_west(b) && c > 0 { seq![(r, c - 1)] } else { seq![] };
        let ee: Seq<(int, int)> = if opens_east(b) && c + 1 < width(map@) { seq![(r, c + 1)] } else { seq![] };
        assert(n =~= nn);
        assert(ns =~= nn + ss);
        assert(nsw =~= nn + ss + ww);
        assert(pairs(out@) =~= nn + ss + ww + ee);
    }
    out
}

/// The cell after `cur` when coming from `prev`: the first neighbour of `cur` that is not
/// `prev`, where the pipe at `cur` leads to exactly two neighbours.
pub open spec fn next_cell(m: Seq<Vec<u8>>, prev: (int, int), cur: (int, int)) -> Option<(int, int)> {
    let o = offsets_spec(m, cur);
    if o.len() == 2 {
        Some(
            if o[0] != prev {
                o[0]
            } else {
                o[1]
            },
        )
    } else {
        None
    }
}

/// The previous and current cell after `k` steps along the pipes from `s`.
pub open spec fn walk(m: Seq<Vec<u8>>, s: (int, int), k: nat) -> Option<((int, int), (int, int))>
    decreases k,
{
    if k == 0 {
        Some((s, s))
    } else {
        match walk(m, s, (k - 1) as nat) {
            Some((p, c)) => match next_cell(m, p, c) {
                Some(n) => Some((c, n)),
                None => None,
            },
            None => None,
        }
    }
}

/// Where the walk from `s` stands after `k` steps.
pub open spec fn at_step(m: Seq<Vec<u8>>, s: (int, int), k: nat) -> Option<(int, int)> {
    match walk(m, s, k) {
        Some((_, c)) => Some(c),
        None => None,
    }
}

/// The walk is back at `s` after `k` steps.
pub open spec fn back_at(m: Seq<Vec<u8>>, s: (int, int), k: nat) -> bool {
    at_step(m, s, k) == Some(s)
}

pub proof fn lemma_walk_stops(m: Seq<Vec<u8>>, s: (int, int), k: nat, j: nat)
    requires
        walk(m, s, k).is_none(),
        k <= j,
    ensures
        walk(m, s, j).is_none(),
    decreases j - k,
{
    if k < j {
        lemma_walk_stops(m, s, k, (j - 1) as nat);
    }
}

/// Number of steps along the pipes from `(row, col)` back to it, trying at most `max_steps`
/// steps; `None` where the walk breaks off or does not come back in time.
pub fn loop_length(map: &Vec<Vec<u8>>, row: usize, col: usize, max_steps: usize) -> (r: Option<usize>)
    requires
        rect(map@),
        row < map.len(),
        col < width(map@),
    ensures
        r matches Some(n) ==> 1 <= n <= max_steps && back_at(map@, (row as int, col as int), n as nat)
            && forall|k: nat| 1 <= k < n ==> !#[trigger] back_at(map@, (row as int, col as int), k),
        r.is_none() ==> forall|k: nat| 1 <= k <= max_steps ==> !#[trigger] back_at(map@, (row as int, col as int), k),
{
    let ghost s = (row as int, col as int);
    let mut prev: (usize, usize) = (row, col);
    let mut cur: (usize, usize) = (row, col);
    let mut k: usize = 0;
    while k < max_steps
        invariant
            s == (row as int, col as int),
            rect(map@),
            k <= max_steps,
            cur.0 < map.len(),
            cur.1 < width(map@),
            walk(map@, s, k as nat) == Some(((prev.0 as int, prev.1 as int), (cur.0 as int, cur.1 as int))),
            forall|j: nat| 1 <= j <= k ==> !#[trigger] back_at(map@, s, j),
        decreases max_steps - k,
    {
        let offs = offsets(map, cur.0, cur.1);
        if offs.len() != 2 {
            proof {
                assert(pairs(offs@).len() == offs@.len());
                assert(walk(map@, s, (k + 1) as nat).is_none());
                assert forall|j: nat| 1 <= j <= max_steps implies !#[trigger] back_at(map@, s, j) by {
                    if j > k {
                        lemma_walk_stops(map@, s, (k + 1) as nat, j);
                    }
                }
            }
            return None;
        }
        let next = if offs[0].0 != prev.0 || offs[0].1 != prev.1 {
            offs[0]
        } else {
            offs[1]
        };
        proof {
            let o = offsets_spec(map@, (cur.0 as int, cur.1 as int));
            assert(pairs(offs@).len() == 2);
            assert(pairs(offs@)[0] == o[0] && pairs(offs@)[1] == o[1]);
            assert((offs@[0].0 != prev.0 || offs@[0].1 != prev.1) == (o[0] != (prev.0 as int, prev.1 as int)));
            assert(next_cell(map@, (prev.0 as int, prev.1 as int), (cur.0 as int, cur.1 as int)) == Some((next.0 as int, next.1 as int)));
            assert(walk(map@, s, (k + 1) as nat) == Some(((cur.0 as int, cur.1 as int), (next.0 as int, next.1 as int))));
        }
        prev = cur;
        cur = next;
        k += 1;
        if cur.0 == row && cur.1 == col {
            return Some(k);
        }
    }
    None
}

/// The cells that the walk from `s` visits in its first `n` steps.
pub open spec fn on_loop(m: Seq<Vec<u8>>, s: (int, int), n: nat, p: (int, int)) -> bool {
    exists|k: nat| k < n && #[trigger] at_step(m, s, k) == Some(p)
}

/// Marks the cells of the loop of `n` steps through `(row, col)`.
pub fn loop_cells(map: &Vec<Vec<u8>>, row: usize, col: usize, n: usize) -> (marks: Vec<Vec<bool>>)
    requires
        rect(map@),
        row < map.len(),
        col < width(map@),
        walk(map@, (row as int, col as int), n as nat).is_some(),
    ensures
        marks.len() == map.len(),
        forall|r: int| 0 <= r < map.len() ==> (#[trigger] marks@[r])@.len() == width(map@),
        forall|r: int, c: int|
            0 <= r < map.len() && 0 <= c < width(map@) ==> (#[trigger] marks@[r]@[c] <==> on_loop(
                map@,
                (row as int, col as int),
                n as nat,
                (r, c),
            )),
{
    let ghost s = (row as int, col as int);
    proof {
        assert forall|k: nat| k <= n implies #[trigger] walk(map@, s, k).is_some() by {
            if walk(map@, s, k).is_none() {
                lemma_walk_stops(map@, s, k, n as nat);
            }
        }
    }
    let rows = map.len();
    assert(map@[0]@.len() == width(map@));
    let cols = map[0].len();
    let mut marks: Vec<Vec<bool>> = Vec::new();
    let mut i: usize = 0;
    while i < rows
        invariant
            i <= rows,
            rows == map.len(),
            cols == width(map@),
            marks.len() == i,
            forall|r: int| 0 <= r < i ==> (#[trigger] marks@[r])@.len() == cols && forall|c: int|
                0 <= c < cols ==> !marks@[r]@[c],
        decreases rows - i,
    {
        let mut line: Vec<bool> = Vec::new();
        let mut j: usize = 0;
        while j < cols
            invariant
                j <= cols,
                line.len() == j,
                forall|c: int| 0 <= c < j ==> !line@[c],
            decreases cols - j,
        {
            line.push(false);
            j += 1;
        }
        marks.push(line);
        i += 1;
    }
    let mut prev: (usize, usize) = (row, col);
    let mut cur: (usize, usize) = (row, col);
    let mut k: usize = 0;
    while k < n
        invariant
            s == (row as int, col as int),
            rect(map@),
            rows == map.len(),
            cols == width(map@),
            k <= n,
            forall|j: nat| j <= n ==> #[trigger] walk(map@, s, j).is_some(),
            cur.0 < rows,
            cur.1 < cols,
            walk(map@, s, k as nat) == Some(((prev.0 as int, prev.1 as int), (cur.0 as int, cur.1 as int))),
            marks.len() == rows,
            forall|r: int| 0 <= r < rows ==> (#[trigger] marks@[r])@.len() == cols,
            forall|r: int, c: int|
                0 <= r < rows && 0 <= c < cols ==> (#[trigger] marks@[r]@[c] <==> on_loop(
                    map@,
                    s,
                    k as nat,
                    (r, c),
                )),
        decreases n - k,
    {
        marks[cur.0][cur.1] = true;
        proof {
            assert forall|r: int, c: int|
                0 <= r < rows && 0 <= c < cols implies (#[trigger] marks@[r]@[c] <==> on_loop(
                map@,
                s,
                (k + 1) as nat,
                (r, c),
            )) by {
                if (r, c) == (cur.0 as int, cur.1 as int) {
                    assert(at_step(map@, s, k as nat) == Some((r, c)));
                } else if on_loop(map@, s, (k + 1) as nat, (r, c)) {
                    let j = choose|j: nat| j < k + 1 && #[trigger] at_step(map@, s, j) == Some((r, c));
                    assert(j != k);
                    assert(on_loop(map@, s, k as nat, (r, c)));
                }
            }
            assert(walk(map@, s, (k + 1) as nat).is_some());
        }
        let offs = offsets(map, cur.0, cur.1);
        proof {
            let o = offsets_spec(map@, (cur.0 as int, cur.1 as int));
            assert(o.len() == 2);
            assert(pairs(offs@)[0] == o[0] && pairs(offs@)[1] == o[1]);
            assert((offs@[0].0 != prev.0 || offs@[0].1 != prev.1) == (o[0] != (prev.0 as int, prev.1 as int)));
        }
        let next = if offs[0].0 != prev.0 || offs[0].1 != prev.1 {
            offs[0]
        } else {
            offs[1]
        };
        prev = cur;
        cur = next;
        k += 1;
    }
    marks
}

/// The map with every cell off the loop turned to ground.
pub fn clean_map(map: &Vec<Vec<u8>>, marks: &Vec<Vec<bool>>) -> (r: Vec<Vec<u8>>)
    requires
        marks.len() == map.len(),
        forall|i: int| 0 <= i < map.len() ==> (#[trigger] marks@[i])@.len() == map@[i]@.len(),
    ensures
        r.len() == map.len(),
        forall|i: int| 0 <= i < map.len() ==> (#[trigger] r@[i])@.len() == map@[i]@.len(),
        forall|i: int, j: int|
            0 <= i < map.len() && 0 <= j < map@[i]@.len() ==> #[trigger] r@[i]@[j] == if marks@[i]@[j] {
                map@[i]@[j]
            } else {
                GROUND
            },
{
    let mut out: Vec<Vec<u8>> = Vec::new();
    let mut i: usize = 0;
    while i < map.len()
        invariant
            i <= map.len(),
            marks.len() == map.len(),
            forall|q: int| 0 <= q < map.len() ==> (#[trigger] marks@[q])@.len() == map@[q]@.len(),
            out.len() == i,
            forall|q: int| 0 <= q < i ==> (#[trigger] out@[q])@.len() == map@[q]@.len(),
            forall|q: int, j: int|
                0 <= q < i && 0 <= j < map@[q]@.len() ==> #[trigger] out@[q]@[j] == if marks@[q]@[j] {
                    map@[q]@[j]
                } else {
                    GROUND
                },
        decreases map.len() - i,
    {
        let mut line: Vec<u8> = Vec::new();
        let mut j: usize = 0;
        while j < map[i].len()
            invariant
                i < map.len(),
                marks.len() == map.len(),
                marks@[i as int]@.len() == map@[i as int]@.len(),
                j <= map@[i as int]@.len(),
                line.len() == j,
                forall|c: int| 0 <= c < j ==> #[trigger] line@[c] == if marks@[i as int]@[c] {
                    map@[i as int]@[c]
                } else {
                    GROUND
                },
            decreases map@[i as int]@.len() - j,
        {
            line.push(if marks[i][j] { map[i][j] } else { GROUND });
            j += 1;
        }
        out.push(line);
        i += 1;
    }
    out
}

/// State of the scan that counts enclosed cells: the count so far, whether the scan is inside
/// the loop, the corner that opened the current stretch of wall, and whether the map has read
/// well so far.
pub open spec fn scan_step(st: (nat, bool, Option<u8>, bool), b: u8) -> (nat, bool, Option<u8>, bool) {
    let (count, inside, corner, ok) = st;
    if !ok {
        st
    } else if b == GROUND {
        (if inside { count + 1 } else { count }, inside, corner, ok)
    } else if b == NORTH_SOUTH {
        (count, !inside, corner, ok)
    } else if b == EAST_WEST {
        st
    } else if b == NORTH_EAST || b == SOUTH_EAST {
        (count, inside, Some(b), ok)
    } else if b == NORTH_WEST {
        match corner {
            Some(k) => (count, if k == SOUTH_EAST { !inside } else { inside }, None, ok),
            None => (count, inside, corner, false),
        }
    } else if b == SOUTH_WEST {
        match corner {
            Some(k) => (count, if k == NORTH_EAST { !inside } else { inside }, None, ok),
            None => (count, inside, corner, false),
        }
    } else {
        (count, inside, corner, false)
    }
}

/// The scan over the cells of one row.
pub open spec fn scan_row(st: (nat, bool, Option<u8>, bool), row: Seq<u8>) -> (nat, bool, Option<u8>, bool)
    decreases row.len(),
{
    if row.len() == 0 {
        st
    } else {
        scan_step(scan_row(st, row.drop_last()), row.last())
    }
}

/// The scan over the rows of a map; each row starts outside the loop.
pub open spec fn scan_rows(rows: Seq<Seq<u8>>) -> (nat, bool, Option<u8>, bool)
    decreases rows.len(),
{
    if rows.len() == 0 {
        (0, false, None, true)
    } else {
        let st = scan_rows(rows.drop_last());
        scan_row((st.0, false, st.2, st.3), rows.last())
    }
}

pub proof fn lemma_row_from(st: (nat, bool, Option<u8>, bool), row: Seq<u8>)
    ensures
        scan_row(st, row).0 >= st.0,
        !st.3 ==> scan_row(st, row) == st,
    decreases row.len(),
{
    if row.len() > 0 {
        lemma_row_from(st, row.drop_last());
    }
}

pub proof fn lemma_row_prefix(st: (nat, bool, Option<u8>, bool), row: Seq<u8>, j: int)
    requires
        0 <= j <= row.len(),
    ensures
        scan_row(st, row.take(j)).0 <= scan_row(st, row).0,
        !scan_row(st, row.take(j)).3 ==> !scan_row(st, row).3,
    decreases row.len(),
{
    if j == row.len() {
        assert(row.take(j) == row);
    } else {
        lemma_row_prefix(st, row.drop_last(), j);
        assert(row.drop_last().take(j) == row.take(j));
    }
}

pub proof fn lemma_rows_prefix(rows: Seq<Seq<u8>>, i: int)
    requires
        0 <= i <= rows.len(),
    ensures
        scan_rows(rows.take(i)).0 <= scan_rows(rows).0,
        !scan_rows(rows.take(i)).3 ==> !scan_rows(rows).3,
    decreases rows.len(),
{
    if i == rows.len() {
        assert(rows.take(i) == rows);
    } else {
        lemma_rows_prefix(rows.drop_last(), i);
        assert(rows.drop_last().take(i) == rows.take(i));
        let st = scan_rows(rows.drop_last());
        lemma_row_from((st.0, false, st.2, st.3), rows.last());
    }
}

/// Number of ground cells enclosed by the loop, scanning each row and flipping between inside
/// and outside at each crossing of the loop; `None` where a cell is not a pipe or ground, a
/// wall stretch does not start with a corner, or the count does not fit in 64 bits.
pub fn count_inner(clean_map: &Vec<Vec<u8>>) -> (r: Option<u64>)
    ensures
        ({
            let st = scan_rows(clean_map@.map_values(|v: Vec<u8>| v@));
            r == if st.3 && st.0 <= u64::MAX {
                Some(st.0 as u64)
            } else {
                None::<u64>
            }
        }),
{
    let ghost rows = clean_map@.map_values(|v: Vec<u8>| v@);
    let mut count: u64 = 0;
    let mut corner: Option<u8> = None;
    let mut ok = true;
    let mut i: usize = 0;
    while i < clean_map.len()
        invariant
            i <= clean_map.len(),
            rows == clean_map@.map_values(|v: Vec<u8>| v@),
            ok ==> (count as nat, corner, ok) == ({
                let st = scan_rows(rows.take(i as int));
                (st.0, st.2, st.3)
            }),
            !ok ==> !scan_rows(rows.take(i as int)).3,
        decreases clean_map.len() - i,
    {
        assert(rows.take(i + 1).drop_last() == rows.take(i as int));
        assert(rows.take(i + 1).last() == clean_map@[i as int]@);
        let ghost st0 = scan_rows(rows.take(i as int));
        let ghost start = (st0.0, false, st0.2, st0.3);
        let mut inside = false;
        let mut j: usize = 0;
        let ghost row = clean_map@[i as int]@;
        while ok && j < clean_map[i].len()
            invariant
                i < clean_map.len(),
                rows == clean_map@.map_values(|v: Vec<u8>| v@),
                row == clean_map@[i as int]@,
                rows.take(i + 1).drop_last() == rows.take(i as int),
                rows.take(i + 1).last() == row,
                start == (st0.0, false, st0.2, st0.3),
                st0 == scan_rows(rows.take(i as int)),
                j <= row.len(),
                ok ==> (count as nat, inside, corner, ok) == scan_row(start, row.take(j as int)),
                !ok ==> !scan_row(start, row.take(j as int)).3,
            decreases row.len() - j,
        {
            assert(row.take(j + 1).drop_last() == row.take(j as int));
            let b = clean_map[i][j];
            if b == GROUND {
                if inside {
                    if count == u64::MAX {
                        proof {
                            lemma_row_prefix(start, row, j + 1);
                            lemma_rows_prefix(rows, i + 1);
                        }
                        return None;
                    }
                    count = count + 1;
                }
            } else if b == NORTH_SOUTH {
                inside = !inside;
            } else if b == EAST_WEST {
            } else if b == NORTH_EAST || b == SOUTH_EAST {
                corner = Some(b);
            } else if b == NORTH_WEST {
                match corner {
                    Some(k) => {
                        if k == SOUTH_EAST {
                            inside = !inside;
                        }
                        corner = None;
                    },
                    None => {
                        ok = false;
                    },
                }
            } else if b == SOUTH_WEST {
                match corner {
                    Some(k) => {
                        if k == NORTH_EAST {
                            inside = !inside;
                        }
                        corner = None;
                    },
                    None => {
                        ok = false;
                    },
                }
            } else {
                ok = false;
            }
            j += 1;
        }
        proof {
            if ok {
                assert(row.take(j as int) == row);
            } else {
                lemma_row_prefix(start, row, j as int);
            }
            if !st0.3 {
                lemma_row_from(start, row);
            }
        }
        i += 1;
    }
    assert(rows.take(clean_map.len() as int) == rows);
    if ok {
        Some(count)
    } else {
        None
    }
}

/// The map `m` with every cell off the loop of `n` steps from `s` turned to ground.
pub open spec fn cleaned(m: Seq<Vec<u8>>, s: (int, int), n: nat) -> Seq<Seq<u8>> {
    Seq::new(
        m.len(),
        |i: int| Seq::new(m[i]@.len(), |j: int| if on_loop(m, s, n, (i, j)) { m[i]@[j] } else { GROUND }),
    )
}

/// Two mazes with the same rows.
pub open spec fn same_views(a: Seq<Vec<u8>>, b: Seq<Vec<u8>>) -> bool {
    a.len() == b.len() && forall|i: int| 0 <= i < a.len() ==> (#[trigger] a[i])@ == b[i]@
}

/// Mazes with the same rows have the same walks, which stay on the maze.
pub proof fn lemma_walk_same(a: Seq<Vec<u8>>, b: Seq<Vec<u8>>, s: (int, int), k: nat)
    requires
        same_views(a, b),
        rect(a),
        in_bounds_of(a, s),
    ensures
        walk(a, s, k) == walk(b, s, k),
        walk(a, s, k) matches Some((p, c)) ==> in_bounds_of(a, p) && in_bounds_of(a, c),
    decreases k,
{
    assert(a[0]@ == b[0]@);
    if k > 0 {
        lemma_walk_same(a, b, s, (k - 1) as nat);
        if let Some((p, c)) = walk(a, s, (k - 1) as nat) {
            assert(a[c.0]@ == b[c.0]@);
            assert(a[c.0]@.len() == width(a));
            assert(offsets_spec(a, c) == offsets_spec(b, c));
            let o = offsets_spec(a, c);
            assert forall|i: int| 0 <= i < o.len() implies in_bounds_of(a, #[trigger] o[i]) by {}
        }
    }
}

/// `p` lies on the maze.
pub open spec fn in_bounds_of(m: Seq<Vec<u8>>, p: (int, int)) -> bool {
    0 <= p.0 < m.len() && 0 <= p.1 < width(m)
}

/// How the answers for a maze come about: `orig` is the maze read, `(row, col)` its first start
/// cell, `m` the maze with the start replaced by its pipe, `n` the length of the loop through
/// the start, `far` half of it and `inner` the cells the loop encloses.
pub open spec fn maze_answers(
    orig: Seq<Vec<u8>>,
    m: Seq<Vec<u8>>,
    row: int,
    col: int,
    n: nat,
    far: u64,
    inner: u64,
) -> bool {
    &&& rect(orig)
    &&& 0 <= row < orig.len() && 0 <= col < width(orig)
    &&& orig[row]@[col] == START
    &&& forall|r2: int, c2: int|
        0 <= r2 < orig.len() && 0 <= c2 < width(orig) && (r2 < row || (r2 == row && c2 < col))
            ==> #[trigger] orig[r2]@[c2] != START
    &&& rect(m) && m.len() == orig.len() && width(m) == width(orig)
    &&& start_pipe(orig, (row, col)) == Some(m[row]@[col])
    &&& forall|r2: int, c2: int|
        0 <= r2 < orig.len() && 0 <= c2 < width(orig) && (r2 != row || c2 != col)
            ==> #[trigger] m[r2]@[c2] == orig[r2]@[c2]
    &&& n >= 1 && back_at(m, (row, col), n)
    &&& n <= m.len() * width(m) && n <= usize::MAX
    &&& forall|k: nat| 1 <= k < n ==> !#[trigger] back_at(m, (row, col), k)
    &&& far == n / 2
    &&& scan_rows(cleaned(m, (row, col), n)).3
    &&& inner == scan_rows(cleaned(m, (row, col), n)).0
}

/// `orig` holds the lines of `input`, and the answers come about from it as `maze_answers`
/// says.
pub open spec fn maze_read(
    input: Seq<u8>,
    orig: Seq<Vec<u8>>,
    m: Seq<Vec<u8>>,
    row: int,
    col: int,
    n: nat,
    far: u64,
    inner: u64,
) -> bool {
    orig.map_values(|v: Vec<u8>| v@) == crate::text::lines_of(input) && maze_answers(orig, m, row, col, n, far, inner)
}

/// The answers `w.5` and `w.6` come about from the maze of `input` as `maze_read` says.
pub open spec fn maze_found(input: Seq<u8>, w: (Seq<Vec<u8>>, Seq<Vec<u8>>, int, int, nat, u64, u64)) -> bool {
    maze_read(input, w.0, w.1, w.2, w.3, w.4, w.5, w.6)
}

/// Both answers for the maze of `input`: the number of steps to the point of the loop farthest
/// from the start, and the number of cells the loop encloses.  `None` exactly where no such
/// answers come about: the lines differ in length, there is no start, no pipe joins it, the
/// loop does not close within as many steps as the maze has cells, or the enclosed count does
/// not read.
pub fn solve(input: &[u8]) -> (r: Option<(u64, u64)>)
    ensures
        r.is_some() ==> exists|orig: Seq<Vec<u8>>, m: Seq<Vec<u8>>, row: int, col: int, n: nat|
            #[trigger] maze_read(input@, orig, m, row, col, n, r->Some_0.0, r->Some_0.1),
        (exists|w: (Seq<Vec<u8>>, Seq<Vec<u8>>, int, int, nat, u64, u64)| #[trigger] maze_found(input@, w))
            ==> r.is_some(),
{
    let mut map = crate::text::lines(input);
    let ghost orig = map@;
    let ghost good = exists|w: (Seq<Vec<u8>>, Seq<Vec<u8>>, int, int, nat, u64, u64)| #[trigger] maze_found(input@, w);
    let ghost w = choose|w: (Seq<Vec<u8>>, Seq<Vec<u8>>, int, int, nat, u64, u64)| #[trigger] maze_found(input@, w);
    proof {
        if good {
            assert(maze_found(input@, w));
            assert(maze_read(input@, w.0, w.1, w.2, w.3, w.4, w.5, w.6));
            assert(orig.map_values(|v: Vec<u8>| v@) == crate::text::lines_of(input@));
            assert(w.0.map_values(|v: Vec<u8>| v@) == crate::text::lines_of(input@));
            assert forall|k: int| 0 <= k < orig.len() implies #[trigger] orig[k]@ == w.0[k]@ by {
                assert(orig.map_values(|v: Vec<u8>| v@)[k] == w.0.map_values(|v: Vec<u8>| v@)[k]);
            }
            assert(orig.map_values(|v: Vec<u8>| v@).len() == w.0.map_values(|v: Vec<u8>| v@).len());
            assert(same_views(w.0, orig));
        }
    }
    if map.len() == 0 {
        proof {
            assert forall|w2: (Seq<Vec<u8>>, Seq<Vec<u8>>, int, int, nat, u64, u64)| !#[trigger] maze_found(input@, w2) by {
                if maze_found(input@, w2) {
                    assert(w2.0.map_values(|v: Vec<u8>| v@).len() == orig.map_values(|v: Vec<u8>| v@).len());
                    assert(maze_answers(w2.0, w2.1, w2.2, w2.3, w2.4, w2.5, w2.6));
                }
            }
        }
        return None;
    }
    let cols = map[0].len();
    let mut i: usize = 0;
    while i < map.len()
        invariant
            i <= map.len(),
            map.len() > 0,
            map@ == orig,
            cols == map@[0]@.len(),
            forall|k: int| 0 <= k < i ==> (#[trigger] map@[k])@.len() == cols,
            good ==> maze_found(input@, w) && same_views(w.0, orig),
            good == (exists|w2: (Seq<Vec<u8>>, Seq<Vec<u8>>, int, int, nat, u64, u64)| #[trigger] maze_found(input@, w2)),
        decreases map.len() - i,
    {
        if map[i].len() != cols {
            proof {
                if good {
                    assert(w.0[i as int]@ == orig[i as int]@);
                    assert(w.0[0]@ == orig[0]@);
                    assert(maze_answers(w.0, w.1, w.2, w.3, w.4, w.5, w.6));
                }
            }
            return None;
        }
        i += 1;
    }
    assert(rect(map@));
    let (row, col) = match find_coords(&map, START) {
        Some(p) => p,
        None => {
            proof {
                if good {
                    assert(w.0[w.2]@ == orig[w.2]@);
                    assert(w.0[w.2]@.len() == width(w.0));
                    assert(w.0[0]@ == orig[0]@);
                    assert(orig[w.2]@[w.3] == START);
                }
            }
            return None;
        },
    };
    proof {
        if good {
            assert(w.0[0]@ == orig[0]@);
            if w.2 < row || (w.2 == row && w.3 < col) {
                assert(w.0[w.2]@ == orig[w.2]@);
                assert(w.0[w.2]@.len() == width(w.0));
            }
            if (row as int) < w.2 || (row as int == w.2 && (col as int) < w.3) {
                assert(w.0[row as int]@ == orig[row as int]@);
                assert(orig[row as int]@.len() == cols);
                assert(w.0[row as int]@[col as int] != START);
            }
            assert(w.2 == row && w.3 == col);
            let r = row as int;
            let c = col as int;
            assert(w.0[r]@ == orig[r]@);
            if r > 0 {
                assert(w.0[r - 1]@ == orig[r - 1]@);
            }
            if r + 1 < orig.len() {
                assert(w.0[r + 1]@ == orig[r + 1]@);
            }
            assert(start_pipe(w.0, (r, c)) == start_pipe(orig, (r, c)));
        }
    }
    assert(map@[row as int]@.len() == cols);
    if !start_to_pipe(&mut map, row, col) {
        return None;
    }
    let ghost s = (row as int, col as int);
    proof {
        if good {
            let m = map@;
            assert(m[0]@.len() == width(m));
            assert forall|k: int| 0 <= k < m.len() implies #[trigger] m[k]@ == w.1[k]@ by {
                assert(m[k]@.len() == width(m));
                assert(w.1[k]@.len() == width(w.1));
                assert(w.1[0]@.len() == width(w.1));
                assert(w.0[0]@ == orig[0]@);
                assert forall|j: int| 0 <= j < m[k]@.len() implies #[trigger] m[k]@[j] == w.1[k]@[j] by {
                    if k != row || j != col {
                        assert(w.0[k]@ == orig[k]@);
                    }
                }
                assert(m[k]@ =~= w.1[k]@);
            }
            assert(same_views(m, w.1));
        }
    }
    let limit = match map.len().checked_mul(cols) {
        Some(l) => l,
        None => usize::MAX,
    };
    proof {
        if good {
            assert(w.0[0]@ == orig[0]@);
            assert(width(w.1) == cols);
            assert(w.1.len() == map.len());
            assert(w.4 <= limit);
            assert(s == (w.2, w.3));
            lemma_walk_same(map@, w.1, s, w.4);
            assert(back_at(map@, s, w.4));
        }
    }
    let n = match loop_length(&map, row, col, limit) {
        Some(n) => n,
        None => {
            return None;
        },
    };
    proof {
        if good {
            lemma_walk_same(map@, w.1, s, n as nat);
            assert(back_at(w.1, s, n as nat));
            if (n as nat) < w.4 {
                assert(!back_at(w.1, (w.2, w.3), n as nat));
            }
            if w.4 < n as nat {
                assert(!back_at(map@, s, w.4));
            }
            assert(n == w.4);
        }
    }
    let far = (n / 2) as u64;
    let marks = loop_cells(&map, row, col, n);
    assert forall|q: int| 0 <= q < map.len() implies (#[trigger] marks@[q])@.len() == map@[q]@.len() by {
        assert(map@[q]@.len() == width(map@));
    }
    let clean = clean_map(&map, &marks);
    let ghost m = map@;
    let ghost cv = clean@.map_values(|v: Vec<u8>| v@);
    let ghost want = cleaned(m, s, n as nat);
    assert(cv =~= want) by {
        assert forall|q: int| 0 <= q < m.len() implies #[trigger] cv[q] =~= want[q] by {
            assert(m[q]@.len() == width(m));
            assert(cv[q] == clean@[q]@);
        }
    }
    proof {
        if good {
            assert forall|k: nat| #[trigger] at_step(m, s, k) == at_step(w.1, s, k) by {
                lemma_walk_same(m, w.1, s, k);
            }
            let other = cleaned(w.1, s, n as nat);
            assert forall|p: (int, int)| #[trigger] on_loop(m, s, n as nat, p) == on_loop(w.1, s, n as nat, p) by {
                if on_loop(m, s, n as nat, p) {
                    let k = choose|k: nat| k < n && #[trigger] at_step(m, s, k) == Some(p);
                    assert(at_step(w.1, s, k) == Some(p));
                }
                if on_loop(w.1, s, n as nat, p) {
                    let k = choose|k: nat| k < n && #[trigger] at_step(w.1, s, k) == Some(p);
                    assert(at_step(m, s, k) == Some(p));
                }
            }
            assert forall|q: int| 0 <= q < m.len() implies #[trigger] want[q] =~= other[q] by {
                assert(m[q]@ == w.1[q]@);
            }
            assert(want =~= other);
        }
    }
    let inner = match count_inner(&clean) {
        Some(c) => c,
        None => {
            return None;
        },
    };
    proof {
        assert(orig.map_values(|v: Vec<u8>| v@) == crate::text::lines_of(input@));
        assert(maze_answers(orig, m, row as int, col as int, n as nat, far, inner));
        assert(maze_read(input@, orig, m, row as int, col as int, n as nat, far, inner));
        assert(exists|o: Seq<Vec<u8>>, m2: Seq<Vec<u8>>, r2: int, c2: int, n2: nat|
            #[trigger] maze_read(input@, o, m2, r2, c2, n2, far, inner));
        let answer: Option<(u64, u64)> = Some((far, inner));
        assert(answer->Some_0.0 == far && answer->Some_0.1 == inner);
    }
    Some((far, inner))
}

} // verus!
