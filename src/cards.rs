//! Scratchcards: their points and the copies they win.

use vstd::prelude::*;
use crate::text::{digits_end, digits_value, has_at, number_list, parse_number, parse_number_list, skip_spaces, spaces_end, tag_at};

verus! {

/// A scratchcard: its winning numbers, the numbers it has, and how many copies of it are held.
#[derive(Debug)]
pub struct Card {
    pub id: u64,
    pub winning_numbers: Vec<u64>,
    pub have_numbers: Vec<u64>,
    pub copies: u64,
}

/// How many of `win` equal `x`.
pub open spec fn occurrences(win: Seq<u64>, x: u64) -> nat
    decreases win.len(),
{
    if win.len() == 0 {
        0
    } else {
        occurrences(win.drop_last(), x) + if win.last() == x {
            1nat
        } else {
            0nat
        }
    }
}

/// Number of pairs of a number it has and an equal winning number.
pub open spec fn match_count(have: Seq<u64>, win: Seq<u64>) -> nat
    decreases have.len(),
{
    if have.len() == 0 {
        0
    } else {
        match_count(have.drop_last(), win) + occurrences(win, have.last())
    }
}

pub open spec fn pow2(k: nat) -> nat
    decreases k,
{
    if k == 0 {
        1
    } else {
        2 * pow2((k - 1) as nat)
    }
}

impl Card {
    pub open spec fn matches(&self) -> nat {
        match_count(self.have_numbers@, self.winning_numbers@)
    }

    /// Number of pairs of a number the card has and an equal winning number.
    pub fn winning_number_count(&self) -> (r: u64)
        requires
            self.have_numbers.len() * self.winning_numbers.len() <= u64::MAX,
        ensures
            r == self.matches(),
    {
        let have = &self.have_numbers;
        let win = &self.winning_numbers;
        let mut matches: u64 = 0;
        let mut i: usize = 0;
        while i < have.len()
            invariant
                i <= have.len(),
                have.len() * win.len() <= u64::MAX,
                matches == match_count(have@.take(i as int), win@),
                matches <= i * win.len(),
            decreases have.len() - i,
        {
            assert(have@.take(i + 1).drop_last() == have@.take(i as int));
            let mut j: usize = 0;
            let ghost base = matches;
            while j < win.len()
                invariant
                    i < have.len(),
                    j <= win.len(),
                    have.len() * win.len() <= u64::MAX,
                    base <= i * win.len(),
                    matches == base + occurrences(win@.take(j as int), have@[i as int]),
                    matches <= base + j,
                decreases win.len() - j,
            {
                assert(win@.take(j + 1).drop_last() == win@.take(j as int));
                assert((i + 1) * win.len() <= have.len() * win.len()) by (nonlinear_arith)
                    requires
                        i < have.len(),
                ;
                assert(i * win.len() + win.len() == (i + 1) * win.len()) by (nonlinear_arith);
                if have[i] == win[j] {
                    matches += 1;
                }
                j += 1;
            }
            assert(win@.take(win.len() as int) == win@);
            assert(i * win.len() + win.len() == (i + 1) * win.len()) by (nonlinear_arith);
            i += 1;
        }
        assert(have@.take(have.len() as int) == have@);
        matches
    }

    /// One point for the first match, doubled for each further one; `None` when it does not
    /// fit in 64 bits.
    pub fn part1_value(&self) -> (r: Option<u64>)
        requires
            self.have_numbers.len() * self.winning_numbers.len() <= u64::MAX,
        ensures
            r == (if self.matches() == 0 {
                Some(0u64)
            } else if self.matches() <= 64 {
                Some(pow2((self.matches() - 1) as nat) as u64)
            } else {
                None::<u64>
            }),
    {
        let m = self.winning_number_count();
        if m == 0 {
            return Some(0);
        }
        if m > 64 {
            return None;
        }
        let mut v: u64 = 1;
        let mut k: u64 = 1;
        proof {
            lemma_pow2_63();
        }
        while k < m
            invariant
                1 <= k <= m <= 64,
                v == pow2((k - 1) as nat),
                pow2(63) == 0x8000_0000_0000_0000,
            decreases m - k,
        {
            proof {
                lemma_pow2_mono(k as nat, 63);
            }
            v = v * 2;
            k += 1;
        }
        Some(v)
    }
}

pub proof fn lemma_pow2_mono(i: nat, j: nat)
    requires
        i <= j,
    ensures
        pow2(i) <= pow2(j),
    decreases j,
{
    if i < j {
        lemma_pow2_mono(i, (j - 1) as nat);
    }
}

pub proof fn lemma_pow2_63()
    ensures
        pow2(63) == 0x8000_0000_0000_0000,
{
    reveal_with_fuel(pow2, 64);
}

/// Copies held of each card after the first `k` cards have paid out: each copy of a card with
/// `m` matches wins one copy of each of the next `m` cards.
pub open spec fn copies_after(counts: Seq<nat>, k: nat) -> Seq<nat>
    decreases k,
{
    if k == 0 {
        Seq::new(counts.len(), |i: int| 1nat)
    } else {
        let j = (k - 1) as int;
        let s = copies_after(counts, (k - 1) as nat);
        Seq::new(
            counts.len(),
            |i: int|
                if j < i <= j + counts[j] {
                    s[i] + s[j]
                } else {
                    s[i]
                },
        )
    }
}

pub open spec fn seq_sum(s: Seq<nat>) -> nat
    decreases s.len(),
{
    if s.len() == 0 {
        0
    } else {
        seq_sum(s.drop_last()) + s.last()
    }
}

/// Total number of cards held once every card has paid out, given each card's match count;
/// `None` when a count does not fit in 64 bits.
pub fn total_cards(counts: &Vec<u64>) -> (r: Option<u64>)
    ensures
        r matches Some(t) ==> t == seq_sum(
            copies_after(counts@.map_values(|c: u64| c as nat), counts.len() as nat),
        ),
        r.is_none() ==> seq_sum(
            copies_after(counts@.map_values(|c: u64| c as nat), counts.len() as nat),
        ) > u64::MAX,
{
    let ghost cs = counts@.map_values(|c: u64| c as nat);
    let n = counts.len();
    let mut copies: Vec<u64> = Vec::new();
    let mut i: usize = 0;
    while i < n
        invariant
            i <= n,
            copies.len() == i,
            forall|k: int| 0 <= k < i ==> copies@[k] == 1,
        decreases n - i,
    {
        copies.push(1);
        i += 1;
    }
    assert(copies@.map_values(|c: u64| c as nat) =~= copies_after(cs, 0));
    let mut i: usize = 0;
    while i < n
        invariant
            i <= n,
            n == counts.len(),
            cs == counts@.map_values(|c: u64| c as nat),
            copies.len() == n,
            copies@.map_values(|c: u64| c as nat) == copies_after(cs, i as nat),
        decreases n - i,
    {
        let ghost before = copies@.map_values(|c: u64| c as nat);
        assert(before.len() == n);
        let mut k: usize = i + 1;
        while k < n && ((k - i - 1) as u64) < counts[i]
            invariant
                i < n,
                n == counts.len(),
                copies.len() == n,
                i + 1 <= k <= n,
                before == copies_after(cs, i as nat),
                copies@[i as int] == before[i as int],
                forall|x: int| 0 <= x < n ==> (#[trigger] copies@[x]) as nat == if i < x < k {
                    before[x] + before[i as int]
                } else {
                    before[x]
                },
                k - i - 1 <= counts@[i as int] as int,
                cs == counts@.map_values(|c: u64| c as nat),
                before.len() == n,
            decreases n - k,
        {
            let add = copies[i];
            match copies[k].checked_add(add) {
                Some(v) => {
                    copies[k] = v;
                },
                None => {
                    proof {
                        let after = copies_after(cs, (i + 1) as nat);
                        assert(cs[i as int] == counts@[i as int] as nat);
                        assert(after[k as int] == before[k as int] + before[i as int]);
                        lemma_copies_grow(cs, (i + 1) as nat, n as nat, k as int);
                        lemma_copies_len(cs, n as nat);
                        lemma_sum_at_least(copies_after(cs, n as nat), k as int);
                    }
                    return None;
                },
            }
            k += 1;
        }
        proof {
            let after = copies_after(cs, (i + 1) as nat);
            let now = copies@.map_values(|c: u64| c as nat);
            assert(cs[i as int] == counts@[i as int] as nat);
            assert forall|x: int| 0 <= x < n implies #[trigger] now[x] == after[x] by {
                assert(now[x] == copies@[x] as nat);
            }
            assert(now =~= after);
        }
        i += 1;
    }
    let mut total: u64 = 0;
    let mut j: usize = 0;
    let ghost fin = copies@.map_values(|c: u64| c as nat);
    while j < n
        invariant
            j <= n,
            n == counts.len(),
            copies.len() == n,
            fin == copies@.map_values(|c: u64| c as nat),
            fin == copies_after(counts@.map_values(|c: u64| c as nat), n as nat),
            total == seq_sum(fin.take(j as int)),
        decreases n - j,
    {
        assert(fin.take(j + 1).drop_last() == fin.take(j as int));
        match total.checked_add(copies[j]) {
            Some(t) => {
                total = t;
            },
            None => {
                proof {
                    lemma_sum_prefix(fin, j + 1);
                    assert(fin.take(n as int) == fin);
                }
                return None;
            },
        }
        j += 1;
    }
    assert(fin.take(n as int) == fin);
    Some(total)
}

pub proof fn lemma_copies_len(cs: Seq<nat>, k: nat)
    ensures
        copies_after(cs, k).len() == cs.len(),
    decreases k,
{
    if k > 0 {
        lemma_copies_len(cs, (k - 1) as nat);
    }
}

/// Copies are only ever added.
pub proof fn lemma_copies_grow(cs: Seq<nat>, a: nat, b: nat, x: int)
    requires
        a <= b,
        0 <= x < cs.len(),
    ensures
        copies_after(cs, a)[x] <= copies_after(cs, b)[x],
    decreases b,
{
    if a < b {
        lemma_copies_grow(cs, a, (b - 1) as nat, x);
        lemma_copies_len(cs, (b - 1) as nat);
    }
}

pub proof fn lemma_sum_at_least(s: Seq<nat>, x: int)
    requires
        0 <= x < s.len(),
    ensures
        s[x] <= seq_sum(s),
    decreases s.len(),
{
    if x < s.len() - 1 {
        lemma_sum_at_least(s.drop_last(), x);
    }
}

pub proof fn lemma_sum_prefix(s: Seq<nat>, k: int)
    requires
        0 <= k <= s.len(),
    ensures
        seq_sum(s.take(k)) <= seq_sum(s),
    decreases s.len() - k,
{
    if k < s.len() {
        assert(s.take(k + 1).drop_last() == s.take(k));
        lemma_sum_prefix(s, k + 1);
    } else {
        assert(s.take(k) == s);
    }
}

pub open spec fn card_tag() -> Seq<u8> {
    seq![0x43u8, 0x61, 0x72, 0x64]
}

/// The first index from `i` on where `s` holds `b`, or the length of `s`.
pub open spec fn find_byte(s: Seq<u8>, i: int, b: u8) -> int
    decreases s.len() - i,
{
    if i < 0 || i >= s.len() || s[i] == b {
        i
    } else {
        find_byte(s, i + 1, b)
    }
}

/// A card line `Card <id>: <numbers> | <numbers>` as its number, winning numbers and numbers.
pub open spec fn card_spec(s: Seq<u8>) -> Option<(u64, Seq<u64>, Seq<u64>)> {
    let p = spaces_end(s, 4);
    let e = digits_end(s, p);
    let bar = find_byte(s, e + 1, 0x7c);
    if has_at(s, 0, card_tag()) && p > 4 && e > p && digits_value(s.subrange(p, e)) <= u64::MAX && e
        < s.len() && s[e] == 0x3a && bar < s.len() {
        match (number_list(s.subrange(e + 1, bar), 0), number_list(s, bar + 1)) {
            (Some(w), Some(h)) => Some((digits_value(s.subrange(p, e)) as u64, w, h)),
            _ => None,
        }
    } else {
        None
    }
}

/// Reads `Card <id>: <numbers> | <numbers>`.
pub fn parse_card(s: &[u8]) -> (r: Option<Card>)
    ensures
        r matches Some(c) ==> c.copies == 1 && card_spec(s@) == Some((c.id, c.winning_numbers@, c.have_numbers@)),
        r.is_none() ==> card_spec(s@).is_none(),
{
    let tag: [u8; 4] = [0x43, 0x61, 0x72, 0x64];
    assert(tag@ =~= card_tag());
    if !tag_at(s, 0, tag.as_slice()) {
        return None;
    }
    let p = skip_spaces(s, 4);
    if p == 4 {
        return None;
    }
    proof {
        crate::text::lemma_digits_end(s@, p as int);
    }
    let (id, e) = match parse_number(s, p) {
        Some(x) => x,
        None => {
            return None;
        },
    };
    if e >= s.len() || s[e] != 0x3a {
        return None;
    }
    let mut bar = e + 1;
    while bar < s.len() && s[bar] != 0x7c
        invariant
            e + 1 <= bar <= s.len(),
            find_byte(s@, e + 1, 0x7c) == find_byte(s@, bar as int, 0x7c),
        decreases s.len() - bar,
    {
        bar += 1;
    }
    if bar >= s.len() {
        return None;
    }
    let mut first: Vec<u8> = Vec::new();
    let mut k = e + 1;
    while k < bar
        invariant
            e + 1 <= k <= bar,
            bar < s.len(),
            first@ == s@.subrange(e + 1, k as int),
        decreases bar - k,
    {
        first.push(s[k]);
        k += 1;
        assert(first@ =~= s@.subrange(e + 1, k as int));
    }
    let winning_numbers = match parse_number_list(first.as_slice(), 0) {
        Some(v) => v,
        None => {
            return None;
        },
    };
    let have_numbers = match parse_number_list(s, bar + 1) {
        Some(v) => v,
        None => {
            return None;
        },
    };
    Some(Card { id, winning_numbers, have_numbers, copies: 1 })
}

/// The cards of `ls`, one per line, or `None` where a line does not read.
pub open spec fn cards_of(ls: Seq<Seq<u8>>) -> Option<Seq<(u64, Seq<u64>, Seq<u64>)>>
    decreases ls.len(),
{
    if ls.len() == 0 {
        Some(Seq::empty())
    } else {
        match (cards_of(ls.drop_last()), card_spec(ls.last())) {
            (Some(cs), Some(c)) => Some(cs.push(c)),
            _ => None,
        }
    }
}

/// The points of a card with `m` matches.
pub open spec fn points(m: nat) -> nat {
    if m == 0 {
        0
    } else {
        pow2((m - 1) as nat)
    }
}

/// Sum of the points of the cards.
pub open spec fn points_sum(cs: Seq<(u64, Seq<u64>, Seq<u64>)>) -> nat
    decreases cs.len(),
{
    if cs.len() == 0 {
        0
    } else {
        points_sum(cs.drop_last()) + points(match_count(cs.last().2, cs.last().1))
    }
}

/// The match counts of the cards.
pub open spec fn match_counts(cs: Seq<(u64, Seq<u64>, Seq<u64>)>) -> Seq<nat> {
    Seq::new(cs.len(), |i: int| match_count(cs[i].2, cs[i].1))
}

/// Both answers for the cards of `input`, one per line: the sum of their points and the number
/// of cards held once every card has paid out.  `None` where a line does not read, a card has
/// more number pairs than 64 bits count, or a sum does not fit in 64 bits.
pub fn solve(input: &[u8]) -> (r: Option<(u64, u64)>)
    ensures
        r matches Some((a, b)) ==> cards_of(crate::text::lines_of(input@)).is_some() && a == points_sum(
            cards_of(crate::text::lines_of(input@))->Some_0,
        ) && b == seq_sum(
            copies_after(
                match_counts(cards_of(crate::text::lines_of(input@))->Some_0),
                cards_of(crate::text::lines_of(input@))->Some_0.len(),
            ),
        ),
        r.is_some() <==> (cards_of(crate::text::lines_of(input@)) matches Some(cs) && pairs_fit(cs)
            && points_sum(cs) <= u64::MAX && seq_sum(copies_after(match_counts(cs), cs.len())) <= u64::MAX),
{
    let ls = crate::text::lines(input);
    let ghost lv = ls@.map_values(|v: Vec<u8>| v@);
    assert(lv == crate::text::lines_of(input@));
    let ghost mut cs: Seq<(u64, Seq<u64>, Seq<u64>)> = Seq::empty();
    let mut total: u64 = 0;
    let mut counts: Vec<u64> = Vec::new();
    let mut i: usize = 0;
    while i < ls.len()
        invariant
            i <= ls.len(),
            lv == ls@.map_values(|v: Vec<u8>| v@),
            lv == crate::text::lines_of(input@),
            cards_of(lv.take(i as int)) == Some(cs),
            pairs_fit(cs),
            total == points_sum(cs),
            counts@.map_values(|c: u64| c as nat) == match_counts(cs),
            cs.len() == i,
        decreases ls.len() - i,
    {
        assert(lv.take(i + 1).drop_last() == lv.take(i as int));
        assert(lv.take(i + 1).last() == ls@[i as int]@);
        let card = match parse_card(ls[i].as_slice()) {
            Some(c) => c,
            None => {
                proof {
                    lemma_cards_prefix(lv, i + 1);
                }
                return None;
            },
        };
        let ghost c = (card.id, card.winning_numbers@, card.have_numbers@);
        assert(cards_of(lv.take(i + 1)) == Some(cs.push(c)));
        assert(cs.push(c).last() == c);
        let fits = match (card.have_numbers.len() as u128).checked_mul(card.winning_numbers.len() as u128) {
            Some(pairs) => pairs <= u64::MAX as u128,
            None => false,
        };
        if !fits {
            proof {
                lemma_cards_prefix(lv, i + 1);
                if let Some(full) = cards_of(lv) {
                    assert(full.take(i + 1)[i as int] == full[i as int]);
                    assert(full[i as int] == c);
                    assert(card.have_numbers.len() * card.winning_numbers.len() > u64::MAX);
                    assert(full[i as int].2.len() * full[i as int].1.len() > u64::MAX);
                    assert(!pairs_fit(full));
                }
            }
            return None;
        }
        let m = card.winning_number_count();
        proof {
            let old_cs = cs;
            let new_cs = cs.push(c);
            assert(new_cs.drop_last() == old_cs);
            assert(points_sum(new_cs) == points_sum(old_cs) + points(m as nat));
            lemma_cards_prefix(lv, i + 1);
            if let Some(full) = cards_of(lv) {
                lemma_points_prefix(full, i + 1);
            }
        }
        let p = match card.part1_value() {
            Some(p) => p,
            None => {
                proof {
                    lemma_pow2_63();
                    lemma_pow2_mono(64, (m - 1) as nat);
                    assert(pow2(64) == 2 * pow2(63));
                }
                return None;
            },
        };
        total = match total.checked_add(p) {
            Some(t) => t,
            None => {
                proof {
                    if m >= 1 {
                        lemma_pow2_63();
                        lemma_pow2_mono((m - 1) as nat, 63);
                    }
                }
                return None;
            },
        };
        let ghost before = counts@.map_values(|c: u64| c as nat);
        counts.push(m);
        proof {
            let old_cs = cs;
            cs = cs.push(c);
            assert forall|k: int| 0 <= k < cs.len() implies #[trigger] cs[k].2.len() * cs[k].1.len() <= u64::MAX by {
                if k < cs.len() - 1 {
                    assert(cs[k] == old_cs[k]);
                }
            }
            assert(cs.drop_last() == old_cs);
            assert(cs.last() == c);
            assert(points_sum(cs) == points_sum(old_cs) + points(match_count(c.2, c.1)));
            if m >= 1 {
                lemma_pow2_63();
                lemma_pow2_mono((m - 1) as nat, 63);
            }
            assert(p == points(m as nat));
            let now = counts@.map_values(|c: u64| c as nat);
            assert(now =~= before.push(m as nat));
            assert(now =~= match_counts(cs)) by {
                assert forall|k: int| 0 <= k < cs.len() implies #[trigger] now[k] == match_counts(cs)[k] by {
                    if k < cs.len() - 1 {
                        assert(now[k] == before[k]);
                        assert(before[k] == match_counts(old_cs)[k]);
                        assert(cs[k] == old_cs[k]);
                    }
                }
            }
        }
        i += 1;
    }
    assert(lv.take(ls.len() as int) == lv);
    let b = match total_cards(&counts) {
        Some(b) => b,
        None => {
            return None;
        },
    };
    Some((total, b))
}

/// Every card has few enough pairs of numbers that their count fits in 64 bits.
pub open spec fn pairs_fit(cs: Seq<(u64, Seq<u64>, Seq<u64>)>) -> bool {
    forall|k: int| 0 <= k < cs.len() ==> #[trigger] cs[k].2.len() * cs[k].1.len() <= u64::MAX
}

/// The cards of the first `k` lines are the first `k` cards of all the lines.
pub proof fn lemma_cards_prefix(ls: Seq<Seq<u8>>, k: int)
    requires
        0 <= k <= ls.len(),
    ensures
        cards_of(ls.take(k)).is_none() ==> cards_of(ls).is_none(),
        cards_of(ls.take(k)).is_some() && cards_of(ls).is_some() ==> cards_of(ls)->Some_0.take(k)
            == cards_of(ls.take(k))->Some_0,
        cards_of(ls).is_some() ==> cards_of(ls)->Some_0.len() == ls.len(),
    decreases ls.len() - k,
{
    if k < ls.len() {
        assert(ls.take(k + 1).drop_last() == ls.take(k));
        lemma_cards_prefix(ls, k + 1);
        if cards_of(ls.take(k + 1)).is_some() && cards_of(ls).is_some() {
            let full = cards_of(ls)->Some_0;
            let pre = cards_of(ls.take(k + 1))->Some_0;
            assert(pre.drop_last() == cards_of(ls.take(k))->Some_0);
            assert(full.take(k) =~= pre.take(k));
            assert(pre.take(k) == pre.drop_last());
        }
    } else {
        assert(ls.take(k) == ls);
        lemma_cards_len(ls);
    }
}

proof fn lemma_cards_len(ls: Seq<Seq<u8>>)
    ensures
        cards_of(ls).is_some() ==> cards_of(ls)->Some_0.len() == ls.len(),
    decreases ls.len(),
{
    if ls.len() > 0 {
        lemma_cards_len(ls.drop_last());
    }
}

pub proof fn lemma_points_prefix(cs: Seq<(u64, Seq<u64>, Seq<u64>)>, k: int)
    requires
        0 <= k <= cs.len(),
    ensures
        points_sum(cs.take(k)) <= points_sum(cs),
    decreases cs.len() - k,
{
    if k < cs.len() {
        assert(cs.take(k + 1).drop_last() == cs.take(k));
        lemma_points_prefix(cs, k + 1);
    } else {
        assert(cs.take(k) == cs);
    }
}

} // verus!
