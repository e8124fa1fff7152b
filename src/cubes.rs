//! Games of cubes drawn from a bag: which games are possible and the smallest bag for each.

use vstd::prelude::*;
use crate::text::{lines, lines_of, digits_end, digits_value, has_at, parse_number, skip_spaces, spaces_end, tag_at};

verus! {

#[derive(Debug, Clone, Copy, PartialEq, Eq, Structural)]
pub enum Color {
    Red,
    Green,
    Blue,
}

/// A number of cubes of each color.
#[derive(Debug, Clone, Copy, PartialEq, Eq, Structural)]
pub struct CubeSet {
    pub red: u64,
    pub green: u64,
    pub blue: u64,
}

/// The largest count of red over `sets`, or zero where there are none.
pub open spec fn max_red(sets: Seq<CubeSet>) -> u64
    decreases sets.len(),
{
    if sets.len() == 0 {
        0
    } else {
        let m = max_red(sets.drop_last());
        if sets.last().red > m {
            sets.last().red
        } else {
            m
        }
    }
}

/// The largest count of green over `sets`.
pub open spec fn max_green(sets: Seq<CubeSet>) -> u64
    decreases sets.len(),
{
    if sets.len() == 0 {
        0
    } else {
        let m = max_green(sets.drop_last());
        if sets.last().green > m {
            sets.last().green
        } else {
            m
        }
    }
}

/// The largest count of blue over `sets`.
pub open spec fn max_blue(sets: Seq<CubeSet>) -> u64
    decreases sets.len(),
{
    if sets.len() == 0 {
        0
    } else {
        let m = max_blue(sets.drop_last());
        if sets.last().blue > m {
            sets.last().blue
        } else {
            m
        }
    }
}

impl CubeSet {
    pub open spec fn covers(&self, other: CubeSet) -> bool {
        self.red >= other.red && self.green >= other.green && self.blue >= other.blue
    }

    pub fn new_empty() -> (r: CubeSet)
        ensures
            r.red == 0 && r.green == 0 && r.blue == 0,
    {
        CubeSet { red: 0, green: 0, blue: 0 }
    }

    /// Whether every color of `other` fits in `self`.
    pub fn contains(&self, other: &CubeSet) -> (r: bool)
        ensures
            r == self.covers(*other),
    {
        self.red >= other.red && self.green >= other.green && self.blue >= other.blue
    }

    /// Adds `count` cubes of `color`.
    pub fn add_cubes(&mut self, count: u64, color: Color)
        requires
            color == Color::Red ==> old(self).red + count <= u64::MAX,
            color == Color::Green ==> old(self).green + count <= u64::MAX,
            color == Color::Blue ==> old(self).blue + count <= u64::MAX,
        ensures
            final(self).red == old(self).red + if color == Color::Red {
                count
            } else {
                0
            },
            final(self).green == old(self).green + if color == Color::Green {
                count
            } else {
                0
            },
            final(self).blue == old(self).blue + if color == Color::Blue {
                count
            } else {
                0
            },
    {
        match color {
            Color::Red => self.red = self.red + count,
            Color::Green => self.green = self.green + count,
            Color::Blue => self.blue = self.blue + count,
        }
    }

    /// Raises each color of `self` to at least that of `other`.
    pub fn ensure_contains(&mut self, other: &CubeSet)
        ensures
            final(self).red == if old(self).red < other.red {
                other.red
            } else {
                old(self).red
            },
            final(self).green == if old(self).green < other.green {
                other.green
            } else {
                old(self).green
            },
            final(self).blue == if old(self).blue < other.blue {
                other.blue
            } else {
                old(self).blue
            },
    {
        if self.red < other.red {
            self.red = other.red;
        }
        if self.green < other.green {
            self.green = other.green;
        }
        if self.blue < other.blue {
            self.blue = other.blue;
        }
    }

    /// The product of the three counts, or `None` when it does not fit in 64 bits.
    pub fn power(&self) -> (r: Option<u64>)
        ensures
            r == (if self.red * self.green * self.blue <= u64::MAX {
                Some((self.red * self.green * self.blue) as u64)
            } else {
                None::<u64>
            }),
    {
        match self.red.checked_mul(self.green) {
            Some(rg) => rg.checked_mul(self.blue),
            None => {
                if self.blue == 0 {
                    assert(self.red * self.green * self.blue == 0) by (nonlinear_arith)
                        requires
                            self.blue == 0,
                    ;
                    Some(0)
                } else {
                    assert(self.red * self.green * self.blue >= self.red * self.green)
                        by (nonlinear_arith)
                        requires
                            self.blue >= 1,
                            self.red * self.green >= 0,
                    ;
                    None
                }
            },
        }
    }
}

/// The smallest set that contains each of `sets`.
pub fn minimum_set(sets: &Vec<CubeSet>) -> (r: CubeSet)
    ensures
        r.red == max_red(sets@),
        r.green == max_green(sets@),
        r.blue == max_blue(sets@),
{
    let mut m = CubeSet::new_empty();
    let mut i: usize = 0;
    while i < sets.len()
        invariant
            i <= sets.len(),
            m.red == max_red(sets@.take(i as int)),
            m.green == max_green(sets@.take(i as int)),
            m.blue == max_blue(sets@.take(i as int)),
        decreases sets.len() - i,
    {
        assert(sets@.take(i + 1).drop_last() == sets@.take(i as int));
        m.ensure_contains(&sets[i]);
        i += 1;
    }
    assert(sets@.take(sets.len() as int) == sets@);
    m
}

/// Whether every set of a game fits in `bag`.
pub fn game_possible(bag: &CubeSet, sets: &Vec<CubeSet>) -> (r: bool)
    ensures
        r == forall|i: int| 0 <= i < sets.len() ==> bag.covers(#[trigger] sets@[i]),
{
    let mut i: usize = 0;
    while i < sets.len()
        invariant
            i <= sets.len(),
            forall|k: int| 0 <= k < i ==> bag.covers(#[trigger] sets@[k]),
        decreases sets.len() - i,
    {
        if !bag.contains(&sets[i]) {
            return false;
        }
        i += 1;
    }
    true
}

pub open spec fn red_word() -> Seq<u8> {
    seq![0x72u8, 0x65, 0x64]
}

pub open spec fn green_word() -> Seq<u8> {
    seq![0x67u8, 0x72, 0x65, 0x65, 0x6e]
}

pub open spec fn blue_word() -> Seq<u8> {
    seq![0x62u8, 0x6c, 0x75, 0x65]
}

/// `count color` at `pos`: a number, at least one space and a color name.
pub open spec fn color_at(s: Seq<u8>, pos: int) -> Option<(u64, Color, int)> {
    let ne = digits_end(s, pos);
    let se = spaces_end(s, ne);
    if pos < ne && digits_value(s.subrange(pos, ne)) <= u64::MAX && ne < se {
        let n = digits_value(s.subrange(pos, ne)) as u64;
        if has_at(s, se, red_word()) {
            Some((n, Color::Red, se + 3))
        } else if has_at(s, se, green_word()) {
            Some((n, Color::Green, se + 5))
        } else if has_at(s, se, blue_word()) {
            Some((n, Color::Blue, se + 4))
        } else {
            None
        }
    } else {
        None
    }
}

/// Reads `count color` at `pos`, returning the count, the color and where it ends.
pub fn parse_color(s: &[u8], pos: usize) -> (r: Option<(u64, Color, usize)>)
    requires
        pos <= s.len(),
    ensures
        r matches Some((n, c, e)) ==> color_at(s@, pos as int) == Some((n, c, e as int)),
        r.is_none() ==> color_at(s@, pos as int).is_none(),
{
    let (n, ne) = match parse_number(s, pos) {
        Some(x) => x,
        None => {
            return None;
        },
    };
    proof {
        crate::text::lemma_digits_end(s@, pos as int);
    }
    let se = skip_spaces(s, ne);
    if se == ne {
        return None;
    }
    let red: [u8; 3] = [0x72, 0x65, 0x64];
    let green: [u8; 5] = [0x67, 0x72, 0x65, 0x65, 0x6e];
    let blue: [u8; 4] = [0x62, 0x6c, 0x75, 0x65];
    assert(red@ =~= red_word());
    assert(green@ =~= green_word());
    assert(blue@ =~= blue_word());
    if tag_at(s, se, red.as_slice()) {
        Some((n, Color::Red, se + 3))
    } else if tag_at(s, se, green.as_slice()) {
        Some((n, Color::Green, se + 5))
    } else if tag_at(s, se, blue.as_slice()) {
        Some((n, Color::Blue, se + 4))
    } else {
        None
    }
}

/// `acc` with `n` more cubes of color `c`, where the count stays within 64 bits.
pub open spec fn add_spec(acc: CubeSet, n: u64, c: Color) -> Option<CubeSet> {
    match c {
        Color::Red => if acc.red + n <= u64::MAX { Some(CubeSet { red: (acc.red + n) as u64, ..acc }) } else { None },
        Color::Green => if acc.green + n <= u64::MAX { Some(CubeSet { green: (acc.green + n) as u64, ..acc }) } else { None },
        Color::Blue => if acc.blue + n <= u64::MAX { Some(CubeSet { blue: (acc.blue + n) as u64, ..acc }) } else { None },
    }
}

/// A set of cubes read from `pos` on, added to `acc`: colors separated by a comma and optional
/// spaces.  The set and where it ends, or `None` where a color does not read or a count goes
/// past 64 bits.
pub open spec fn cubeset_from(s: Seq<u8>, pos: int, acc: CubeSet) -> Option<(CubeSet, int)>
    decreases s.len() - pos,
{
    match color_at(s, pos) {
        None => None,
        Some((n, c, e)) => match add_spec(acc, n, c) {
            None => None,
            Some(acc2) => if e < s.len() && s[e] == 0x2c {
                let q = spaces_end(s, e + 1);
                if q <= pos || q > s.len() {
                    None
                } else {
                    cubeset_from(s, q, acc2)
                }
            } else {
                Some((acc2, e))
            },
        },
    }
}

/// Reads a set of cubes: colors separated by a comma and optional spaces.  `None` where a
/// color does not read or a count goes past 64 bits.
pub fn parse_cubeset(s: &[u8], pos: usize) -> (r: Option<(CubeSet, usize)>)
    requires
        pos <= s.len(),
    ensures
        r matches Some((cs, e)) ==> cubeset_from(s@, pos as int, CubeSet { red: 0, green: 0, blue: 0 })
            == Some((cs, e as int)) && pos < e <= s.len(),
        r.is_none() ==> cubeset_from(s@, pos as int, CubeSet { red: 0, green: 0, blue: 0 }).is_none(),
{
    let mut cs = CubeSet::new_empty();
    let mut at = pos;
    loop
        invariant
            pos <= at <= s.len(),
            cubeset_from(s@, pos as int, CubeSet { red: 0, green: 0, blue: 0 }) == cubeset_from(s@, at as int, cs),
        decreases s.len() - at,
    {
        let (n, c, e) = match parse_color(s, at) {
            Some(x) => x,
            None => {
                return None;
            },
        };
        proof {
            crate::text::lemma_digits_end(s@, at as int);
            crate::text::lemma_spaces_end(s@, crate::text::digits_end(s@, at as int));
        }
        assert(at < e <= s.len());
        let fits = match c {
            Color::Red => n <= u64::MAX - cs.red,
            Color::Green => n <= u64::MAX - cs.green,
            Color::Blue => n <= u64::MAX - cs.blue,
        };
        if !fits {
            return None;
        }
        let ghost before = cs;
        cs.add_cubes(n, c);
        assert(add_spec(before, n, c) == Some(cs));
        if e < s.len() && s[e] == 0x2c {
            at = skip_spaces(s, e + 1);
        } else {
            return Some((cs, e));
        }
    }
}

/// One game: its number and the sets of cubes shown in it.
#[derive(Debug)]
pub struct Game {
    pub id: u64,
    pub sets: Vec<CubeSet>,
}

/// The sets of cubes read from `pos` on, separated by `;` and optional spaces.
pub open spec fn sets_from(s: Seq<u8>, pos: int) -> Option<Seq<CubeSet>>
    decreases s.len() - pos,
{
    match cubeset_from(s, pos, CubeSet { red: 0, green: 0, blue: 0 }) {
        None => None,
        Some((cs, e)) => if e < s.len() && s[e] == 0x3b {
            let q = spaces_end(s, e + 1);
            if q <= pos || q > s.len() {
                None
            } else {
                match sets_from(s, q) {
                    Some(rest) => Some(seq![cs] + rest),
                    None => None,
                }
            }
        } else {
            Some(seq![cs])
        },
    }
}

pub open spec fn game_tag() -> Seq<u8> {
    seq![0x47u8, 0x61, 0x6d, 0x65, 0x20]
}

/// A record `Game <id>: <sets>` as its number and sets.
pub open spec fn game_spec(s: Seq<u8>) -> Option<(u64, Seq<CubeSet>)> {
    let ie = digits_end(s, 5);
    if has_at(s, 0, game_tag()) && 5 < ie && digits_value(s.subrange(5, ie)) <= u64::MAX && has_at(
        s,
        ie,
        seq![0x3au8, 0x20],
    ) {
        match sets_from(s, ie + 2) {
            Some(sets) => Some((digits_value(s.subrange(5, ie)) as u64, sets)),
            None => None,
        }
    } else {
        None
    }
}

/// Reads `Game <id>: ` followed by sets of cubes separated by `;` and optional spaces.
pub fn parse_game(s: &[u8]) -> (r: Option<Game>)
    ensures
        r matches Some(g) ==> game_spec(s@) == Some((g.id, g.sets@)),
        r.is_none() ==> game_spec(s@).is_none(),
{
    let game: [u8; 5] = [0x47, 0x61, 0x6d, 0x65, 0x20];
    assert(game@ =~= game_tag());
    if !tag_at(s, 0, game.as_slice()) {
        return None;
    }
    let (id, ie) = match parse_number(s, 5) {
        Some(x) => x,
        None => {
            return None;
        },
    };
    proof {
        crate::text::lemma_digits_end(s@, 5);
    }
    let colon: [u8; 2] = [0x3a, 0x20];
    assert(colon@ =~= seq![0x3au8, 0x20]);
    if !tag_at(s, ie, colon.as_slice()) {
        return None;
    }
    assert(has_at(s@, ie as int, colon@));
    assert(ie + 2 <= s@.len());
    assert(s@.len() == s.len());
    let start = ie + 2;
    let mut sets: Vec<CubeSet> = Vec::new();
    let mut at = start;
    loop
        invariant
            start <= at <= s.len(),
            sets_from(s@, start as int) == match sets_from(s@, at as int) {
                Some(rest) => Some(sets@ + rest),
                None => None::<Seq<CubeSet>>,
            },
            game_spec(s@) == match sets_from(s@, start as int) {
                Some(all) => Some((id, all)),
                None => None::<(u64, Seq<CubeSet>)>,
            },
        decreases s.len() - at,
    {
        let (cs, e) = match parse_cubeset(s, at) {
            Some(x) => x,
            None => {
                return None;
            },
        };
        let ghost before = sets@;
        sets.push(cs);
        if e < s.len() && s[e] == 0x3b {
            let next = skip_spaces(s, e + 1);
            proof {
                assert(sets@ == before + seq![cs]);
                match sets_from(s@, next as int) {
                    Some(rest) => {
                        assert(before + (seq![cs] + rest) == sets@ + rest);
                    },
                    None => {},
                }
            }
            at = next;
        } else {
            proof {
                assert(before + seq![cs] == sets@);
            }
            return Some(Game { id, sets });
        }
    }
}

/// A game as its number and sets.
pub open spec fn game_view(g: Game) -> (u64, Seq<CubeSet>) {
    (g.id, g.sets@)
}

pub open spec fn games_view(gs: Seq<Game>) -> Seq<(u64, Seq<CubeSet>)> {
    gs.map_values(|g: Game| game_view(g))
}

/// Sum of the numbers of the games whose sets all fit in `bag`.
pub open spec fn possible_sum(games: Seq<(u64, Seq<CubeSet>)>, bag: CubeSet) -> nat
    decreases games.len(),
{
    if games.len() == 0 {
        0
    } else {
        possible_sum(games.drop_last(), bag) + if forall|i: int|
            0 <= i < games.last().1.len() ==> bag.covers(#[trigger] games.last().1[i]) {
            games.last().0 as nat
        } else {
            0
        }
    }
}

/// Sum of the numbers of the possible games, or `None` when it does not fit in 64 bits.
pub fn possible_id_sum(games: &Vec<Game>, bag: &CubeSet) -> (r: Option<u64>)
    ensures
        r == (if possible_sum(games_view(games@), *bag) <= u64::MAX {
            Some(possible_sum(games_view(games@), *bag) as u64)
        } else {
            None::<u64>
        }),
{
    let ghost gv = games_view(games@);
    let mut total: u64 = 0;
    let mut i: usize = 0;
    while i < games.len()
        invariant
            i <= games.len(),
            gv == games_view(games@),
            total == possible_sum(gv.take(i as int), *bag),
        decreases games.len() - i,
    {
        assert(gv.take(i + 1).drop_last() == gv.take(i as int));
        assert(gv.take(i + 1).last() == game_view(games@[i as int]));
        assert(gv.take(i + 1).last().1 == games@[i as int].sets@);
        if game_possible(bag, &games[i].sets) {
            match total.checked_add(games[i].id) {
                Some(t) => {
                    total = t;
                },
                None => {
                    proof {
                        lemma_possible_prefix(gv, *bag, i + 1);
                    }
                    return None;
                },
            }
        }
        i += 1;
    }
    assert(gv.take(games.len() as int) == gv);
    Some(total)
}

pub proof fn lemma_possible_prefix(games: Seq<(u64, Seq<CubeSet>)>, bag: CubeSet, k: int)
    requires
        0 <= k <= games.len(),
    ensures
        possible_sum(games.take(k), bag) <= possible_sum(games, bag),
    decreases games.len() - k,
{
    if k < games.len() {
        lemma_possible_prefix(games, bag, k + 1);
        assert(games.take(k + 1).drop_last() == games.take(k));
    } else {
        assert(games.take(k) == games);
    }
}

/// The power of the smallest set that contains every set of `g`.
pub open spec fn game_power(g: (u64, Seq<CubeSet>)) -> nat {
    (max_red(g.1) as nat) * (max_green(g.1) as nat) * (max_blue(g.1) as nat)
}

pub open spec fn power_sum(games: Seq<(u64, Seq<CubeSet>)>) -> nat
    decreases games.len(),
{
    if games.len() == 0 {
        0
    } else {
        power_sum(games.drop_last()) + game_power(games.last())
    }
}

pub proof fn lemma_power_prefix(games: Seq<(u64, Seq<CubeSet>)>, k: int)
    requires
        0 <= k <= games.len(),
    ensures
        power_sum(games.take(k)) <= power_sum(games),
    decreases games.len() - k,
{
    if k < games.len() {
        lemma_power_prefix(games, k + 1);
        assert(games.take(k + 1).drop_last() == games.take(k));
    } else {
        assert(games.take(k) == games);
    }
}

/// Sum over the games of the power of their smallest containing set, or `None` when it does
/// not fit in 64 bits.
pub fn minimum_power_sum(games: &Vec<Game>) -> (r: Option<u64>)
    ensures
        r == (if power_sum(games_view(games@)) <= u64::MAX {
            Some(power_sum(games_view(games@)) as u64)
        } else {
            None::<u64>
        }),
{
    let ghost gv = games_view(games@);
    let mut total: u64 = 0;
    let mut i: usize = 0;
    while i < games.len()
        invariant
            i <= games.len(),
            gv == games_view(games@),
            total == power_sum(gv.take(i as int)),
        decreases games.len() - i,
    {
        assert(gv.take(i + 1).drop_last() == gv.take(i as int));
        assert(gv.take(i + 1).last() == game_view(games@[i as int]));
        let m = minimum_set(&games[i].sets);
        let p = match m.power() {
            Some(p) => p,
            None => {
                proof {
                    lemma_power_prefix(gv, i + 1);
                }
                return None;
            },
        };
        match total.checked_add(p) {
            Some(t) => {
                total = t;
            },
            None => {
                proof {
                    lemma_power_prefix(gv, i + 1);
                }
                return None;
            },
        }
        i += 1;
    }
    assert(gv.take(games.len() as int) == gv);
    Some(total)
}

/// The bag of the first question: 12 red, 13 green and 14 blue cubes.
pub open spec fn question_bag() -> CubeSet {
    CubeSet { red: 12, green: 13, blue: 14 }
}

/// The games of `ls`, one per line, or `None` where a line does not read.
pub open spec fn games_of(ls: Seq<Seq<u8>>) -> Option<Seq<(u64, Seq<CubeSet>)>>
    decreases ls.len(),
{
    if ls.len() == 0 {
        Some(Seq::empty())
    } else {
        match (games_of(ls.drop_last()), game_spec(ls.last())) {
            (Some(gs), Some(g)) => Some(gs.push(g)),
            _ => None,
        }
    }
}

pub proof fn lemma_games_none(ls: Seq<Seq<u8>>, k: int)
    requires
        0 <= k <= ls.len(),
        games_of(ls.take(k)).is_none(),
    ensures
        games_of(ls).is_none(),
    decreases ls.len() - k,
{
    if k < ls.len() {
        assert(ls.take(k + 1).drop_last() == ls.take(k));
        lemma_games_none(ls, k + 1);
    } else {
        assert(ls.take(k) == ls);
    }
}

/// Both answers for the game records, one per line: the sum of the numbers of the games that
/// the bag of 12 red, 13 green and 14 blue cubes allows, and the sum of the powers of the
/// smallest bags.  `None` where a line does not read or a sum does not fit in 64 bits.
pub fn solve(input: &[u8]) -> (r: Option<(u64, u64)>)
    ensures
        r matches Some((a, b)) ==> games_of(lines_of(input@)) matches Some(gs) && a == possible_sum(
            gs,
            question_bag(),
        ) && b == power_sum(gs),
        r.is_some() <==> (games_of(lines_of(input@)) matches Some(gs) && possible_sum(gs, question_bag())
            <= u64::MAX && power_sum(gs) <= u64::MAX),
{
    let ls = lines(input);
    let ghost lv = ls@.map_values(|v: Vec<u8>| v@);
    let mut games: Vec<Game> = Vec::new();
    let mut i: usize = 0;
    while i < ls.len()
        invariant
            i <= ls.len(),
            lv == ls@.map_values(|v: Vec<u8>| v@),
            lv == lines_of(input@),
            games_of(lv.take(i as int)) == Some(games_view(games@)),
        decreases ls.len() - i,
    {
        assert(lv.take(i + 1).drop_last() == lv.take(i as int));
        assert(lv.take(i + 1).last() == ls@[i as int]@);
        let ghost before = games_view(games@);
        match parse_game(ls[i].as_slice()) {
            Some(g) => {
                games.push(g);
                assert(games_view(games@) =~= before.push(game_view(g)));
            },
            None => {
                proof {
                    lemma_games_none(lv, i + 1);
                }
                return None;
            },
        }
        i += 1;
    }
    assert(lv.take(ls.len() as int) == lv);
    let bag = CubeSet { red: 12, green: 13, blue: 14 };
    assert(bag == question_bag());
    let a = match possible_id_sum(&games, &bag) {
        Some(a) => a,
        None => {
            return None;
        },
    };
    let b = match minimum_power_sum(&games) {
        Some(b) => b,
        None => {
            return None;
        },
    };
    Some((a, b))
}

} // verus!
