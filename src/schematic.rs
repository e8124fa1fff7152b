//! An engine schematic: the numbers next to a symbol and the gears.

use vstd::prelude::*;
use fnv::FnvHashSet;
use crate::text::{digits_end, digits_value, parse_number};

verus! {

broadcast use vstd::seq_lib::lemma_seq_contains_after_push;

/// A cell of the schematic.
#[derive(Debug, Clone, Copy, PartialEq, Eq, Structural)]
pub struct Cell {
    pub row: u64,
    pub col: u64,
}

/// A set of cells.
#[verifier::external_body]
pub struct CellSet {
    set: FnvHashSet<(u64, u64)>,
}

/// What a cell set holds, each cell as `(row, col)`.
pub uninterp spec fn cell_entries(s: CellSet) -> Set<(u64, u64)>;

impl CellSet {
    /// Relies on `FnvHashSet::default` (std's `HashSet::default` with fnv's hasher): the new
    /// set is empty.
    #[verifier::external_body]
    pub(crate) fn new() -> (r: CellSet)
        ensures
            cell_entries(r) =~= Set::empty(),
    {
        CellSet { set: FnvHashSet::default() }
    }

    /// Relies on `HashSet::insert`: afterwards the set also holds `c`.
    #[verifier::external_body]
    pub(crate) fn insert(&mut self, c: (u64, u64))
        ensures
            cell_entries(*final(self)) == cell_entries(*old(self)).insert(c),
    {
        self.set.insert(c);
    }

    /// Relies on `HashSet::contains`: whether the set holds `c`.
    #[verifier::external_body]
    pub(crate) fn contains(&self, c: (u64, u64)) -> (r: bool)
        ensures
            r == cell_entries(*self).contains(c),
    {
        self.set.contains(&c)
    }
}

/// `a` and `b` differ and touch, across an edge or a corner.
pub open spec fn touching(a: Cell, b: Cell) -> bool {
    a != b && a.row <= b.row + 1 && b.row <= a.row + 1 && a.col <= b.col + 1 && b.col <= a.col + 1
}

impl Cell {
    /// The cells around this one, left out where they would lie above the first row or left of
    /// the first column.
    pub fn adjacent_cells(&self) -> (r: Vec<Cell>)
        requires
            self.row < u64::MAX - 1,
            self.col < u64::MAX - 1,
        ensures
            forall|c: Cell| #[trigger] r@.contains(c) <==> touching(*self, c),
    {
        let mut out: Vec<Cell> = Vec::new();
        let r0 = if self.row > 0 { self.row - 1 } else { 0 };
        let c0 = if self.col > 0 { self.col - 1 } else { 0 };
        let mut r = r0;
        while r <= self.row + 1
            invariant
                r0 <= r <= self.row + 2,
                r0 == if self.row > 0 { self.row - 1 } else { 0 },
                c0 == if self.col > 0 { self.col - 1 } else { 0 },
                self.row < u64::MAX - 1,
                self.col < u64::MAX - 1,
                forall|c: Cell| #[trigger] out@.contains(c) <==> touching(*self, c) && c.row < r,
            decreases self.row + 2 - r,
        {
            let mut c = c0;
            let ghost before = out@;
            while c <= self.col + 1
                invariant
                    r0 <= r <= self.row + 1,
                    r0 == if self.row > 0 { self.row - 1 } else { 0 },
                    c0 <= c <= self.col + 2,
                    c0 == if self.col > 0 { self.col - 1 } else { 0 },
                    self.row < u64::MAX - 1,
                    self.col < u64::MAX - 1,
                    forall|x: Cell| #[trigger] out@.contains(x) <==> before.contains(x) || (touching(*self, x) && x.row == r && x.col < c),
                    forall|x: Cell| #[trigger] before.contains(x) ==> x.row < r,
                decreases self.col + 2 - c,
            {
                let cell = Cell { row: r, col: c };
                let ghost prev = out@;
                if r != self.row || c != self.col {
                    out.push(cell);
                    assert(touching(*self, cell));
                }
                proof {
                    assert forall|x: Cell| #[trigger] out@.contains(x) <==> before.contains(x) || (touching(*self, x)
                        && x.row == r && x.col < c + 1) by {
                        if x.row == r && x.col == c {
                            assert(x == cell);
                        }
                    }
                }
                c += 1;
            }
            r += 1;
        }
        out
    }
}

/// A part number and where it stands: its row, its first column and its number of digits.
#[derive(Debug, Clone, Copy, PartialEq, Eq, Structural)]
pub struct Number {
    pub cell: Cell,
    pub len: u64,
    pub value: u64,
}

/// A symbol and its cell.
#[derive(Debug, Clone, Copy, PartialEq, Eq, Structural)]
pub struct Symbol {
    pub cell: Cell,
    pub symbol: u8,
}

/// The number's digits occupy cell `c`.
pub open spec fn occupies(n: Number, c: Cell) -> bool {
    c.row == n.cell.row && n.cell.col <= c.col < n.cell.col + n.len
}

impl Number {
    /// The cells that the number's digits occupy.
    pub fn occupied_cells(&self) -> (r: Vec<Cell>)
        requires
            self.cell.col + self.len <= u64::MAX,
        ensures
            forall|c: Cell| #[trigger] r@.contains(c) <==> occupies(*self, c),
    {
        let mut out: Vec<Cell> = Vec::new();
        let mut k: u64 = 0;
        while k < self.len
            invariant
                k <= self.len,
                self.cell.col + self.len <= u64::MAX,
                forall|c: Cell| #[trigger] out@.contains(c) <==> c.row == self.cell.row && self.cell.col <= c.col < self.cell.col + k,
            decreases self.len - k,
        {
            let cell = Cell { row: self.cell.row, col: self.cell.col + k };
            out.push(cell);
            k += 1;
        }
        out
    }
}

/// The number touches the symbol.
pub open spec fn number_touches(n: Number, s: Symbol) -> bool {
    exists|c: Cell| occupies(n, c) && #[trigger] touching(s.cell, c)
}

pub open spec fn small(n: Number) -> bool {
    n.cell.col + n.len < u64::MAX && n.cell.row < u64::MAX
}

pub open spec fn small_symbol(s: Symbol) -> bool {
    s.cell.col < u64::MAX - 1 && s.cell.row < u64::MAX - 1
}

/// Whether some cell of the number lies in the set.
fn number_hits(n: &Number, set: &CellSet) -> (r: bool)
    requires
        small(*n),
    ensures
        r == exists|c: Cell| occupies(*n, c) && cell_entries(*set).contains((c.row, c.col)),
{
    let cells = n.occupied_cells();
    let mut i: usize = 0;
    while i < cells.len()
        invariant
            i <= cells.len(),
            forall|c: Cell| #[trigger] cells@.contains(c) <==> occupies(*n, c),
            forall|k: int| 0 <= k < i ==> !cell_entries(*set).contains((#[trigger] cells@[k].row, cells@[k].col)),
        decreases cells.len() - i,
    {
        if set.contains((cells[i].row, cells[i].col)) {
            assert(cells@.contains(cells@[i as int]));
            return true;
        }
        i += 1;
    }
    proof {
        assert forall|c: Cell| occupies(*n, c) implies !cell_entries(*set).contains((c.row, c.col)) by {
            assert(cells@.contains(c));
            let k = choose|k: int| 0 <= k < cells@.len() && cells@[k] == c;
            assert(!cell_entries(*set).contains((cells@[k].row, cells@[k].col)));
        }
    }
    false
}

/// Sum of the numbers that touch a symbol.
pub open spec fn part_sum(ns: Seq<Number>, ss: Seq<Symbol>) -> nat
    decreases ns.len(),
{
    if ns.len() == 0 {
        0
    } else {
        part_sum(ns.drop_last(), ss) + if exists|j: int| 0 <= j < ss.len() && #[trigger] number_touches(ns.last(), ss[j]) {
            ns.last().value as nat
        } else {
            0
        }
    }
}

/// Sum of the numbers that touch a symbol; `None` when it does not fit in 64 bits.
pub fn part_number_sum(numbers: &Vec<Number>, symbols: &Vec<Symbol>) -> (r: Option<u64>)
    requires
        forall|i: int| 0 <= i < numbers.len() ==> small(#[trigger] numbers@[i]),
        forall|j: int| 0 <= j < symbols.len() ==> small_symbol(#[trigger] symbols@[j]),
    ensures
        r matches Some(t) ==> t == part_sum(numbers@, symbols@),
        r.is_none() ==> part_sum(numbers@, symbols@) > u64::MAX,
{
    let mut near = CellSet::new();
    let mut j: usize = 0;
    while j < symbols.len()
        invariant
            j <= symbols.len(),
            forall|q: int| 0 <= q < symbols.len() ==> small_symbol(#[trigger] symbols@[q]),
            forall|c: Cell| #[trigger] cell_entries(near).contains((c.row, c.col)) <==> exists|q: int| 0 <= q < j && #[trigger] touching(symbols@[q].cell, c),
            forall|p: (u64, u64)| #[trigger] cell_entries(near).contains(p) ==> exists|c: Cell| c.row == p.0 && c.col == p.1 && #[trigger] cell_entries(near).contains((c.row, c.col)),
        decreases symbols.len() - j,
    {
        let around = symbols[j].cell.adjacent_cells();
        let mut k: usize = 0;
        let ghost start = near;
        while k < around.len()
            invariant
                j < symbols.len(),
                k <= around.len(),
                forall|c: Cell| #[trigger] around@.contains(c) <==> touching(symbols@[j as int].cell, c),
                forall|c: Cell| #[trigger] cell_entries(near).contains((c.row, c.col)) <==> cell_entries(start).contains((c.row, c.col)) || exists|q: int| 0 <= q < k && #[trigger] around@[q] == c,
                forall|p: (u64, u64)| #[trigger] cell_entries(near).contains(p) ==> exists|c: Cell| c.row == p.0 && c.col == p.1 && #[trigger] cell_entries(near).contains((c.row, c.col)),
            decreases around.len() - k,
        {
            near.insert((around[k].row, around[k].col));
            k += 1;
        }
        proof {
            assert forall|c: Cell| #[trigger] cell_entries(near).contains((c.row, c.col)) <==> exists|q: int| 0 <= q < j + 1 && #[trigger] touching(symbols@[q].cell, c) by {
                if exists|q: int| 0 <= q < around@.len() && #[trigger] around@[q] == c {
                    let q = choose|q: int| 0 <= q < around@.len() && #[trigger] around@[q] == c;
                    assert(around@.contains(c));
                }
                if touching(symbols@[j as int].cell, c) {
                    assert(around@.contains(c));
                }
            }
        }
        j += 1;
    }
    let mut total: u64 = 0;
    let mut i: usize = 0;
    while i < numbers.len()
        invariant
            i <= numbers.len(),
            forall|q: int| 0 <= q < numbers.len() ==> small(#[trigger] numbers@[q]),
            forall|c: Cell| #[trigger] cell_entries(near).contains((c.row, c.col)) <==> exists|q: int| 0 <= q < symbols.len() && #[trigger] touching(symbols@[q].cell, c),
            total == part_sum(numbers@.take(i as int), symbols@),
        decreases numbers.len() - i,
    {
        assert(numbers@.take(i + 1).drop_last() == numbers@.take(i as int));
        let n = numbers[i];
        let hit = number_hits(&n, &near);
        assert(numbers@.take(i + 1).last() == n);
        proof {
            let touches = exists|q: int| 0 <= q < symbols.len() && #[trigger] number_touches(n, symbols@[q]);
            if hit {
                let c = choose|c: Cell| occupies(n, c) && cell_entries(near).contains((c.row, c.col));
                let q = choose|q: int| 0 <= q < symbols.len() && #[trigger] touching(symbols@[q].cell, c);
                assert(number_touches(n, symbols@[q]));
            }
            if touches {
                let q = choose|q: int| 0 <= q < symbols.len() && #[trigger] number_touches(n, symbols@[q]);
                let c = choose|c: Cell| occupies(n, c) && #[trigger] touching(symbols@[q].cell, c);
                assert(cell_entries(near).contains((c.row, c.col)));
            }
        }
        if hit {
            match total.checked_add(n.value) {
                Some(t) => {
                    total = t;
                },
                None => {
                    proof {
                        lemma_part_prefix(numbers@, symbols@, i + 1);
                    }
                    return None;
                },
            }
        }
        i += 1;
    }
    assert(numbers@.take(numbers.len() as int) == numbers@);
    Some(total)
}

pub proof fn lemma_part_prefix(ns: Seq<Number>, ss: Seq<Symbol>, k: int)
    requires
        0 <= k <= ns.len(),
    ensures
        part_sum(ns.take(k), ss) <= part_sum(ns, ss),
    decreases ns.len() - k,
{
    if k < ns.len() {
        assert(ns.take(k + 1).drop_last() == ns.take(k));
        lemma_part_prefix(ns, ss, k + 1);
    } else {
        assert(ns.take(k) == ns);
    }
}

pub proof fn lemma_gear_prefix(ns: Seq<Number>, ss: Seq<Symbol>, k: int, n: int)
    requires
        0 <= k <= n,
    ensures
        gear_sum(ns, ss, k) <= gear_sum(ns, ss, n),
    decreases n - k,
{
    if k < n {
        lemma_gear_prefix(ns, ss, k, n - 1);
    }
}

/// The numbers and symbols of `s` from `pos` on, in row `row`: each run of digits is a number,
/// each other byte that is not `.` a symbol.  `None` where a number does not fit in 64 bits.
pub open spec fn scan_from(s: Seq<u8>, row: u64, pos: int) -> Option<(Seq<Number>, Seq<Symbol>)>
    decreases s.len() - pos,
{
    if pos < 0 || pos >= s.len() {
        Some((Seq::empty(), Seq::empty()))
    } else if crate::text::is_digit(s[pos]) {
        let e = digits_end(s, pos);
        if e <= pos || e > s.len() || digits_value(s.subrange(pos, e)) > u64::MAX {
            None
        } else {
            let n = Number {
                cell: Cell { row, col: pos as u64 },
                len: (e - pos) as u64,
                value: digits_value(s.subrange(pos, e)) as u64,
            };
            match scan_from(s, row, e) {
                Some((ns, ss)) => Some((seq![n] + ns, ss)),
                None => None,
            }
        }
    } else if s[pos] != 0x2e {
        match scan_from(s, row, pos + 1) {
            Some((ns, ss)) => Some((ns, seq![Symbol { cell: Cell { row, col: pos as u64 }, symbol: s[pos] }] + ss)),
            None => None,
        }
    } else {
        scan_from(s, row, pos + 1)
    }
}

/// What a scan finds lies on its line.
pub proof fn lemma_scan_bounds(s: Seq<u8>, row: u64, pos: int)
    requires
        0 <= pos,
        s.len() <= u64::MAX,
    ensures
        scan_from(s, row, pos) matches Some((ns, ss)) ==> (forall|i: int|
            0 <= i < ns.len() ==> (#[trigger] ns[i]).cell.row == row && ns[i].cell.col + ns[i].len <= s.len())
            && (forall|j: int| 0 <= j < ss.len() ==> (#[trigger] ss[j]).cell.row == row && ss[j].cell.col < s.len()),
    decreases s.len() - pos,
{
    if pos < s.len() {
        if crate::text::is_digit(s[pos]) {
            let e = digits_end(s, pos);
            crate::text::lemma_digits_end(s, pos);
            if e > pos {
                lemma_scan_bounds(s, row, e);
                if let Some((ns, ss)) = scan_from(s, row, pos) {
                    let (ns2, ss2) = scan_from(s, row, e)->Some_0;
                    assert forall|i: int| 0 <= i < ns.len() implies (#[trigger] ns[i]).cell.row == row && ns[i].cell.col
                        + ns[i].len <= s.len() by {
                        if i > 0 {
                            assert(ns[i] == ns2[i - 1]);
                        }
                    }
                }
            }
        } else {
            lemma_scan_bounds(s, row, pos + 1);
            if let Some((ns, ss)) = scan_from(s, row, pos) {
                if s[pos] != 0x2e {
                    let (ns2, ss2) = scan_from(s, row, pos + 1)->Some_0;
                    assert forall|j: int| 0 <= j < ss.len() implies (#[trigger] ss[j]).cell.row == row && ss[j].cell.col
                        < s.len() by {
                        if j > 0 {
                            assert(ss[j] == ss2[j - 1]);
                        }
                    }
                }
            }
        }
    }
}

/// Reads one line of the schematic: each run of digits is a number, each other byte that is
/// not `.` a symbol.  `None` where a number does not fit in 64 bits.
pub fn scan_line(line: &[u8], row: u64) -> (r: Option<(Vec<Number>, Vec<Symbol>)>)
    ensures
        r matches Some((ns, ss)) ==> scan_from(line@, row, 0) == Some((ns@, ss@)),
        r.is_none() ==> scan_from(line@, row, 0).is_none(),
{
    let mut numbers: Vec<Number> = Vec::new();
    let mut symbols: Vec<Symbol> = Vec::new();
    let mut i: usize = 0;
    assert(numbers@ + Seq::<Number>::empty() == numbers@);
    while i < line.len()
        invariant
            i <= line.len(),
            scan_from(line@, row, 0) == match scan_from(line@, row, i as int) {
                Some((x, y)) => Some((numbers@ + x, symbols@ + y)),
                None => None::<(Seq<Number>, Seq<Symbol>)>,
            },
        decreases line.len() - i,
    {
        let b = line[i];
        if 0x30 <= b && b <= 0x39 {
            proof {
                crate::text::lemma_digits_end(line@, i as int);
            }
            match parse_number(line, i) {
                Some((v, e)) => {
                    let n = Number { cell: Cell { row, col: i as u64 }, len: (e - i) as u64, value: v };
                    let ghost before = numbers@;
                    numbers.push(n);
                    proof {
                        match scan_from(line@, row, e as int) {
                            Some((x, y)) => {
                                assert(before + (seq![n] + x) == numbers@ + x);
                            },
                            None => {},
                        }
                    }
                    i = e;
                },
                None => {
                    return None;
                },
            }
        } else {
            if b != 0x2e {
                let sym = Symbol { cell: Cell { row, col: i as u64 }, symbol: b };
                let ghost before = symbols@;
                symbols.push(sym);
                proof {
                    match scan_from(line@, row, i + 1) {
                        Some((x, y)) => {
                            assert(before + (seq![sym] + y) == symbols@ + y);
                        },
                        None => {},
                    }
                }
            }
            i += 1;
        }
    }
    assert(numbers@ + Seq::<Number>::empty() == numbers@);
    assert(symbols@ + Seq::<Symbol>::empty() == symbols@);
    Some((numbers, symbols))
}

/// How many of the first `n` numbers touch `s`, and the product of those that do.
pub open spec fn touching_numbers(ns: Seq<Number>, s: Symbol, n: int) -> (nat, nat)
    decreases n,
{
    if n <= 0 {
        (0, 1)
    } else {
        let (c, p) = touching_numbers(ns, s, n - 1);
        if number_touches(ns[n - 1], s) {
            (c + 1, p * (ns[n - 1].value as nat))
        } else {
            (c, p)
        }
    }
}

/// Sum over the first `k` symbols that are `*` and touch exactly two numbers of the product of
/// those two numbers.
pub open spec fn gear_sum(ns: Seq<Number>, ss: Seq<Symbol>, k: int) -> nat
    decreases k,
{
    if k <= 0 {
        0
    } else {
        let (c, p) = touching_numbers(ns, ss[k - 1], ns.len() as int);
        gear_sum(ns, ss, k - 1) + if ss[k - 1].symbol == 0x2a && c == 2 {
            p
        } else {
            0
        }
    }
}

/// Sum of the gear ratios; `None` when a value does not fit in 64 bits.
pub fn gear_ratio_sum(numbers: &Vec<Number>, symbols: &Vec<Symbol>) -> (r: Option<u64>)
    requires
        forall|i: int| 0 <= i < numbers.len() ==> small(#[trigger] numbers@[i]),
        forall|j: int| 0 <= j < symbols.len() ==> small_symbol(#[trigger] symbols@[j]),
    ensures
        r matches Some(t) ==> t == gear_sum(numbers@, symbols@, symbols.len() as int),
        r.is_none() ==> gear_sum(numbers@, symbols@, symbols.len() as int) > u64::MAX,
{
    let mut total: u64 = 0;
    let mut j: usize = 0;
    while j < symbols.len()
        invariant
            j <= symbols.len(),
            forall|i: int| 0 <= i < numbers.len() ==> small(#[trigger] numbers@[i]),
            forall|q: int| 0 <= q < symbols.len() ==> small_symbol(#[trigger] symbols@[q]),
            total == gear_sum(numbers@, symbols@, j as int),
        decreases symbols.len() - j,
    {
        let sym = symbols[j];
        let around = sym.cell.adjacent_cells();
        let mut near = CellSet::new();
        let mut k: usize = 0;
        while k < around.len()
            invariant
                k <= around.len(),
                forall|c: Cell| #[trigger] around@.contains(c) <==> touching(sym.cell, c),
                forall|c: Cell| #[trigger] cell_entries(near).contains((c.row, c.col)) <==> exists|q: int| 0 <= q < k && #[trigger] around@[q] == c,
            decreases around.len() - k,
        {
            near.insert((around[k].row, around[k].col));
            k += 1;
        }
        proof {
            assert forall|c: Cell| #[trigger] cell_entries(near).contains((c.row, c.col)) <==> touching(sym.cell, c) by {
                if touching(sym.cell, c) {
                    assert(around@.contains(c));
                }
                if cell_entries(near).contains((c.row, c.col)) {
                    let q = choose|q: int| 0 <= q < around.len() && #[trigger] around@[q] == c;
                    assert(around@.contains(c));
                }
            }
        }
        let mut count: u64 = 0;
        let mut product: u64 = 1;
        let mut overflow = false;
        let mut i: usize = 0;
        while i < numbers.len()
            invariant
                i <= numbers.len(),
                forall|q: int| 0 <= q < numbers.len() ==> small(#[trigger] numbers@[q]),
                forall|c: Cell| #[trigger] cell_entries(near).contains((c.row, c.col)) <==> touching(sym.cell, c),
                count == touching_numbers(numbers@, sym, i as int).0,
                count <= i,
                !overflow ==> product == touching_numbers(numbers@, sym, i as int).1,
                overflow ==> touching_numbers(numbers@, sym, i as int).0 >= 2,
                touching_numbers(numbers@, sym, i as int).0 == 0 ==> touching_numbers(numbers@, sym, i as int).1 == 1,
                overflow && touching_numbers(numbers@, sym, i as int).0 == 2 ==> touching_numbers(numbers@, sym, i as int).1 > u64::MAX,
            decreases numbers.len() - i,
        {
            let n = numbers[i];
            let hit = number_hits(&n, &near);
            assert(hit == number_touches(n, sym));
            if hit {
                count += 1;
                match product.checked_mul(n.value) {
                    Some(p) => {
                        product = p;
                    },
                    None => {
                        overflow = true;
                    },
                }
            }
            i += 1;
        }
        if sym.symbol == 0x2a && count == 2 {
            if overflow {
                proof {
                    lemma_gear_prefix(numbers@, symbols@, j + 1, symbols.len() as int);
                }
                return None;
            }
            match total.checked_add(product) {
                Some(t) => {
                    total = t;
                },
                None => {
                    proof {
                        lemma_gear_prefix(numbers@, symbols@, j + 1, symbols.len() as int);
                    }
                    return None;
                },
            }
        }
        j += 1;
    }
    Some(total)
}

/// The numbers and symbols of the first `k` lines of `ls`, line by line.
pub open spec fn scan_all(ls: Seq<Seq<u8>>, k: int) -> Option<(Seq<Number>, Seq<Symbol>)>
    decreases k,
{
    if k <= 0 {
        Some((Seq::empty(), Seq::empty()))
    } else {
        match (scan_all(ls, k - 1), scan_from(ls[k - 1], (k - 1) as u64, 0)) {
            (Some((ns, ss)), Some((ns2, ss2))) => Some((ns + ns2, ss + ss2)),
            _ => None,
        }
    }
}

pub proof fn lemma_scan_all_none(ls: Seq<Seq<u8>>, k: int, n: int)
    requires
        0 <= k <= n,
        scan_all(ls, k).is_none(),
    ensures
        scan_all(ls, n).is_none(),
    decreases n - k,
{
    if k < n {
        lemma_scan_all_none(ls, k, n - 1);
    }
}

/// The schematic's lines are few and short enough for every cell to have room around it.
pub open spec fn lines_fit(ls: Seq<Seq<u8>>) -> bool {
    ls.len() < u64::MAX - 2 && forall|i: int| 0 <= i < ls.len() ==> (#[trigger] ls[i]).len() < u64::MAX - 2
}

/// Both answers for the schematic of `input`: the sum of the numbers next to a symbol and the
/// sum of the gear ratios.  `None` where a line is too long, a number does not fit in 64 bits
/// or a sum overflows.
pub fn solve(input: &[u8]) -> (r: Option<(u64, u64)>)
    ensures
        r matches Some((a, b)) ==> scan_all(crate::text::lines_of(input@), crate::text::lines_of(input@).len() as int)
            matches Some((ns, ss)) && a == part_sum(ns, ss) && b == gear_sum(ns, ss, ss.len() as int),
        r.is_some() <==> lines_fit(crate::text::lines_of(input@)) && (scan_all(
            crate::text::lines_of(input@),
            crate::text::lines_of(input@).len() as int,
        ) matches Some((ns, ss)) && part_sum(ns, ss) <= u64::MAX && gear_sum(ns, ss, ss.len() as int)
            <= u64::MAX),
{
    let ls = crate::text::lines(input);
    let ghost lv = ls@.map_values(|v: Vec<u8>| v@);
    assert(lv == crate::text::lines_of(input@));
    if ls.len() as u128 >= u64::MAX as u128 - 2 {
        return None;
    }
    let mut numbers: Vec<Number> = Vec::new();
    let mut symbols: Vec<Symbol> = Vec::new();
    let mut i: usize = 0;
    while i < ls.len()
        invariant
            i <= ls.len(),
            ls.len() < u64::MAX - 2,
            lv == ls@.map_values(|v: Vec<u8>| v@),
            lv == crate::text::lines_of(input@),
            forall|k: int| 0 <= k < i ==> (#[trigger] lv[k]).len() < u64::MAX - 2,
            scan_all(lv, i as int) == Some((numbers@, symbols@)),
            forall|k: int| 0 <= k < numbers.len() ==> small(#[trigger] numbers@[k]),
            forall|k: int| 0 <= k < symbols.len() ==> small_symbol(#[trigger] symbols@[k]),
        decreases ls.len() - i,
    {
        assert(lv[i as int] == ls@[i as int]@);
        if ls[i].len() as u128 >= u64::MAX as u128 - 2 {
            return None;
        }
        let (ns, ss) = match scan_line(ls[i].as_slice(), i as u64) {
            Some(x) => x,
            None => {
                proof {
                    lemma_scan_all_none(lv, i + 1, lv.len() as int);
                }
                return None;
            },
        };
        proof {
            lemma_scan_bounds(lv[i as int], i as u64, 0);
        }
        let ghost n0 = numbers@;
        let ghost s0 = symbols@;
        let mut k: usize = 0;
        while k < ns.len()
            invariant
                k <= ns.len(),
                i < ls.len() < u64::MAX - 2,
                lv[i as int].len() < u64::MAX - 2,
                numbers@ == n0 + ns@.take(k as int),
                forall|q: int| 0 <= q < numbers.len() ==> small(#[trigger] numbers@[q]),
                forall|q: int| 0 <= q < ns.len() ==> (#[trigger] ns@[q]).cell.row == i as u64 && ns@[q].cell.col + ns@[q].len <= lv[i as int].len(),
            decreases ns.len() - k,
        {
            numbers.push(ns[k]);
            k += 1;
            assert(numbers@ =~= n0 + ns@.take(k as int));
        }
        let mut k: usize = 0;
        while k < ss.len()
            invariant
                k <= ss.len(),
                i < ls.len() < u64::MAX - 2,
                lv[i as int].len() < u64::MAX - 2,
                symbols@ == s0 + ss@.take(k as int),
                forall|q: int| 0 <= q < symbols.len() ==> small_symbol(#[trigger] symbols@[q]),
                forall|q: int| 0 <= q < ss.len() ==> (#[trigger] ss@[q]).cell.row == i as u64 && ss@[q].cell.col < lv[i as int].len(),
            decreases ss.len() - k,
        {
            symbols.push(ss[k]);
            k += 1;
            assert(symbols@ =~= s0 + ss@.take(k as int));
        }
        assert(ns@.take(ns.len() as int) == ns@);
        assert(ss@.take(ss.len() as int) == ss@);
        i += 1;
    }
    let a = match part_number_sum(&numbers, &symbols) {
        Some(a) => a,
        None => {
            return None;
        },
    };
    let b = match gear_ratio_sum(&numbers, &symbols) {
        Some(b) => b,
        None => {
            return None;
        },
    };
    Some((a, b))
}

} // verus!
