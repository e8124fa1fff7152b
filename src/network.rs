//! Walking a network of nodes by left and right turns, and the least common multiple of
//! the walks' periods through prime factors.

use vstd::prelude::*;
use fnv::FnvHashMap;
use crate::text::{has_at, tag_at};

verus! {

/// The nodes of the network: for each node name, the names to its left and right, names
/// written as numbers by `name_value`.
#[verifier::external_body]
pub struct NodeMap {
    map: FnvHashMap<u64, (u64, u64)>,
}

/// What a node table holds.
pub uninterp spec fn node_entries(m: NodeMap) -> Map<u64, (u64, u64)>;

impl NodeMap {
    /// Relies on `FnvHashMap::default` (std's `HashMap::default` with fnv's hasher): the new
    /// map is empty.
    #[verifier::external_body]
    pub(crate) fn new() -> (r: NodeMap)
        ensures
            node_entries(r) =~= Map::empty(),
    {
        NodeMap { map: FnvHashMap::default() }
    }

    /// Relies on `HashMap::insert`: afterwards `k` maps to `v` and every other key is as before.
    #[verifier::external_body]
    pub(crate) fn insert(&mut self, k: u64, v: (u64, u64))
        ensures
            node_entries(*final(self)) == node_entries(*old(self)).insert(k, v),
    {
        self.map.insert(k, v);
    }

    /// Relies on `HashMap::get`: the value of `k`, if it has one.
    #[verifier::external_body]
    pub(crate) fn get(&self, k: u64) -> (r: Option<(u64, u64)>)
        ensures
            r == (if node_entries(*self).contains_key(k) {
                Some(node_entries(*self)[k])
            } else {
                None::<(u64, u64)>
            }),
    {
        self.map.get(&k).copied()
    }
}

/// A node's name as a number: its bytes read in base 256.
pub open spec fn name_value(s: Seq<u8>) -> nat
    decreases s.len(),
{
    if s.len() == 0 {
        0
    } else {
        name_value(s.drop_last()) * 256 + s.last() as nat
    }
}

pub open spec fn is_name_byte(b: u8) -> bool {
    (0x30 <= b <= 0x39) || (0x41 <= b <= 0x5a) || (0x61 <= b <= 0x7a)
}

pub proof fn lemma_name_bound(s: Seq<u8>)
    ensures
        name_value(s) < crate::cards::pow2(8 * s.len()),
    decreases s.len(),
{
    if s.len() > 0 {
        lemma_name_bound(s.drop_last());
        let k = (8 * (s.len() - 1)) as nat;
        lemma_pow2_add8(k);
    }
}

proof fn lemma_pow2_add8(k: nat)
    ensures
        crate::cards::pow2(k + 8) == 256 * crate::cards::pow2(k),
{
    reveal_with_fuel(crate::cards::pow2, 9);
}

/// The number of a name of one to eight letters or digits.
pub fn name_code(s: &[u8]) -> (r: Option<u64>)
    ensures
        r.is_some() <==> 1 <= s.len() <= 8 && forall|i: int| 0 <= i < s.len() ==> is_name_byte(#[trigger] s@[i]),
        r matches Some(v) ==> v == name_value(s@),
{
    if s.len() == 0 || s.len() > 8 {
        return None;
    }
    let mut v: u64 = 0;
    let mut i: usize = 0;
    proof {
        crate::cards::lemma_pow2_63();
    }
    while i < s.len()
        invariant
            i <= s.len() <= 8,
            v == name_value(s@.take(i as int)),
            forall|k: int| 0 <= k < i ==> is_name_byte(#[trigger] s@[k]),
            crate::cards::pow2(63) == 0x8000_0000_0000_0000,
        decreases s.len() - i,
    {
        assert(s@.take(i + 1).drop_last() == s@.take(i as int));
        let b = s[i];
        if !((0x30 <= b && b <= 0x39) || (0x41 <= b && b <= 0x5a) || (0x61 <= b && b <= 0x7a)) {
            return None;
        }
        proof {
            lemma_name_bound(s@.take(i as int));
            crate::cards::lemma_pow2_mono(8 * i as nat, 56);
            lemma_pow2_add8(56);
        }
        v = v * 256 + b as u64;
        i += 1;
    }
    assert(s@.take(s.len() as int) == s@);
    Some(v)
}

#[derive(Debug, Clone, Copy, PartialEq, Eq, Structural)]
pub enum Direction {
    Left,
    Right,
}

pub fn parse_direction(b: u8) -> (r: Option<Direction>)
    ensures
        r == (if b == 0x4c {
            Some(Direction::Left)
        } else if b == 0x52 {
            Some(Direction::Right)
        } else {
            None::<Direction>
        }),
{
    if b == 0x4c {
        Some(Direction::Left)
    } else if b == 0x52 {
        Some(Direction::Right)
    } else {
        None
    }
}

/// Where a walk stops: at a name whose last byte is the given one, or at one given name.
#[derive(Debug, Clone, Copy, PartialEq, Eq, Structural)]
pub enum Goal {
    EndsWith(u8),
    Exactly(u64),
}

pub open spec fn goal_met(g: Goal, code: u64) -> bool {
    match g {
        Goal::EndsWith(b) => code % 256 == b as u64,
        Goal::Exactly(c) => code == c,
    }
}

/// Where the walk from `start` stands after `n` steps, following the directions over and over.
pub open spec fn position(m: Map<u64, (u64, u64)>, dirs: Seq<Direction>, start: u64, n: nat) -> Option<u64>
    decreases n,
{
    if n == 0 {
        Some(start)
    } else {
        match position(m, dirs, start, (n - 1) as nat) {
            Some(p) => if m.contains_key(p) && dirs.len() > 0 {
                Some(
                    if dirs[(n - 1) % dirs.len() as int] == Direction::Left {
                        m[p].0
                    } else {
                        m[p].1
                    },
                )
            } else {
                None
            },
            None => None,
        }
    }
}

/// The walk has reached the goal after `n` steps.
pub open spec fn arrived(m: Map<u64, (u64, u64)>, dirs: Seq<Direction>, start: u64, goal: Goal, n: nat) -> bool {
    position(m, dirs, start, n) matches Some(p) && goal_met(goal, p)
}

/// Walks from `start` until a node meets `goal`, taking at least one and at most `max_steps`
/// steps: the node reached and the number of steps, or `None` where the walk leaves the map or
/// needs more steps.
pub fn walk(nodes: &NodeMap, directions: &Vec<Direction>, start: u64, goal: Goal, max_steps: u64) -> (r: Option<(u64, u64)>)
    ensures
        r matches Some((end, n)) ==> 1 <= n <= max_steps && position(node_entries(*nodes), directions@, start, n as nat) == Some(end)
            && goal_met(goal, end) && forall|k: nat| 1 <= k < n ==> !#[trigger] arrived(node_entries(*nodes), directions@, start, goal, k),
        r.is_none() ==> forall|k: nat| 1 <= k <= max_steps ==> !#[trigger] arrived(node_entries(*nodes), directions@, start, goal, k),
{
    let ghost m = node_entries(*nodes);
    if directions.len() == 0 {
        proof {
            assert forall|k: nat| 1 <= k <= max_steps implies !#[trigger] arrived(m, directions@, start, goal, k) by {
                lemma_position_stops(m, directions@, start, 1, k);
            }
        }
        return None;
    }
    let mut position_now = start;
    let mut steps: u64 = 0;
    let mut d: usize = 0;
    while steps < max_steps
        invariant
            m == node_entries(*nodes),
            directions.len() > 0,
            steps <= max_steps,
            d < directions.len(),
            d as int == (steps as int) % (directions.len() as int),
            position(m, directions@, start, steps as nat) == Some(position_now),
            forall|k: nat| 1 <= k <= steps ==> !#[trigger] arrived(m, directions@, start, goal, k),
        decreases max_steps - steps,
    {
        let node = match nodes.get(position_now) {
            Some(n) => n,
            None => {
                proof {
                    assert forall|k: nat| 1 <= k <= max_steps implies !#[trigger] arrived(m, directions@, start, goal, k) by {
                        if k > steps {
                            lemma_position_stops(m, directions@, start, (steps + 1) as nat, k);
                        }
                    }
                }
                return None;
            },
        };
        position_now = match directions[d] {
            Direction::Left => node.0,
            Direction::Right => node.1,
        };
        proof {
            let l = directions.len() as int;
            let q = (steps as int) / l;
            vstd::arithmetic::div_mod::lemma_fundamental_div_mod(steps as int, l);
            if d + 1 < l {
                vstd::arithmetic::div_mod::lemma_fundamental_div_mod_converse_mod(steps + 1, l, q, d + 1);
            } else {
                assert(steps + 1 == (q + 1) * l + 0) by (nonlinear_arith)
                    requires
                        steps == q * l + d,
                        d + 1 == l,
                ;
                vstd::arithmetic::div_mod::lemma_fundamental_div_mod_converse_mod(steps + 1, l, q + 1, 0);
            }
        }
        steps += 1;
        d = if d + 1 == directions.len() {
            0
        } else {
            d + 1
        };
        let met = match goal {
            Goal::EndsWith(b) => position_now % 256 == b as u64,
            Goal::Exactly(c) => position_now == c,
        };
        if met {
            return Some((position_now, steps));
        }
    }
    None
}

pub proof fn lemma_position_stops(m: Map<u64, (u64, u64)>, dirs: Seq<Direction>, start: u64, k: nat, j: nat)
    requires
        position(m, dirs, start, k).is_none(),
        k <= j,
    ensures
        position(m, dirs, start, j).is_none(),
    decreases j - k,
{
    if k < j {
        lemma_position_stops(m, dirs, start, k, (j - 1) as nat);
    }
}

/// Product of the numbers of `s`.
pub open spec fn product(s: Seq<u64>) -> nat
    decreases s.len(),
{
    if s.len() == 0 {
        1
    } else {
        product(s.drop_last()) * (s.last() as nat)
    }
}

/// `p` is a prime number.
pub open spec fn is_prime(p: int) -> bool {
    p >= 2 && forall|d: int| 2 <= d < p ==> #[trigger] (p % d) != 0
}

/// The prime factors of `n`, smallest first, each as often as it divides `n`.
pub fn prime_factors(n: u64) -> (r: Vec<u64>)
    ensures
        n <= 1 ==> r.len() == 0,
        n >= 1 ==> product(r@) == n,
        forall|i: int| 0 <= i < r.len() ==> #[trigger] r@[i] >= 2,
        forall|i: int| 0 <= i < r.len() ==> is_prime(#[trigger] r@[i] as int),
        forall|i: int, j: int| 0 <= i < j < r.len() ==> #[trigger] r@[i] <= #[trigger] r@[j],
{
    if n == 0 {
        return Vec::new();
    }
    let mut m: u128 = n as u128;
    let mut factors: Vec<u64> = Vec::new();
    let mut f: u128 = 2;
    assert(product(factors@) == 1);
    while f <= n as u128 && m > 1
        invariant
            2 <= f <= n as u128 + 1,
            1 <= m <= n,
            product(factors@) * m == n,
            forall|i: int| 0 <= i < factors.len() ==> 2 <= #[trigger] factors@[i] < f,
            forall|i: int| 0 <= i < factors.len() ==> is_prime(#[trigger] factors@[i] as int),
            forall|i: int, j: int| 0 <= i < j < factors.len() ==> #[trigger] factors@[i] <= #[trigger] factors@[j],
            m > 1 ==> forall|d: u128| 2 <= d < f ==> #[trigger] (m % d) != 0,
        decreases n as u128 + 1 - f,
    {
        while m % f == 0 && m > 1
            invariant
                2 <= f <= n,
                1 <= m <= n,
                product(factors@) * m == n,
                forall|i: int| 0 <= i < factors.len() ==> 2 <= #[trigger] factors@[i] <= f,
                forall|i: int| 0 <= i < factors.len() ==> is_prime(#[trigger] factors@[i] as int),
                forall|i: int, j: int| 0 <= i < j < factors.len() ==> #[trigger] factors@[i] <= #[trigger] factors@[j],
                m > 1 ==> forall|d: u128| 2 <= d < f ==> #[trigger] (m % d) != 0,
            decreases m,
        {
            let ghost p = product(factors@);
            let ghost before = factors@;
            let q = m / f;
            proof {
                vstd::arithmetic::div_mod::lemma_fundamental_div_mod(m as int, f as int);
            }
            assert(q * f == m) by (nonlinear_arith)
                requires
                    m as int == (f as int) * (q as int) + (m as int) % (f as int),
                    (m as int) % (f as int) == 0,
            ;
            assert(is_prime(f as int)) by {
                assert forall|d: int| 2 <= d < f implies #[trigger] ((f as int) % d) != 0 by {
                    if (f as int) % d == 0 {
                        assert((f as int) * (q as int) == m as int) by (nonlinear_arith)
                            requires
                                q * f == m,
                        ;
                        lemma_divides_multiple(m as int, f as int, q as int, d);
                        assert((m % (d as u128)) != 0);
                    }
                }
            }
            factors.push(f as u64);
            assert(factors@.drop_last() == before);
            assert(product(factors@) == p * f);
            assert(p * f * q == p * m) by (nonlinear_arith)
                requires
                    q * f == m,
            ;
            assert(q < m) by (nonlinear_arith)
                requires
                    q * f == m,
                    f >= 2,
                    m >= 1,
            ;
            assert(q >= 1) by (nonlinear_arith)
                requires
                    q * f == m,
                    m >= 1,
            ;
            assert forall|d: u128| 2 <= d < f implies #[trigger] (q % d) != 0 by {
                if q % d == 0 {
                    lemma_divides_multiple(m as int, q as int, f as int, d as int);
                }
            }
            m = q;
        }
        f += 1;
    }
    if m > 1 {
        // no number from 2 up to `n` divides `m`, not even `m` itself
        assert(m % m == 0) by {
            vstd::arithmetic::div_mod::lemma_mod_self_0(m as int);
        }
        assert(false);
    }
    assert(product(factors@) * 1 == n);
    factors
}

proof fn lemma_divides_multiple(m: int, q: int, f: int, d: int)
    requires
        q * f == m,
        d > 0,
        q % d == 0,
    ensures
        m % d == 0,
{
    vstd::arithmetic::div_mod::lemma_fundamental_div_mod(q, d);
    let t = q / d;
    assert(m == (t * f) * d) by (nonlinear_arith)
        requires
            q * f == m,
            q == d * t + 0,
    ;
    vstd::arithmetic::div_mod::lemma_mod_multiples_basic(t * f, d);
}

/// How often `x` occurs in `s`.
pub open spec fn occurrences(s: Seq<u64>, x: u64) -> nat
    decreases s.len(),
{
    if s.len() == 0 {
        0
    } else {
        occurrences(s.drop_last(), x) + if s.last() == x {
            1nat
        } else {
            0nat
        }
    }
}

/// The most times `x` occurs in one of the first `n` lists.
pub open spec fn most_occurrences(lists: Seq<Seq<u64>>, x: u64, n: int) -> nat
    decreases n,
{
    if n <= 0 {
        0
    } else {
        let a = most_occurrences(lists, x, n - 1);
        let b = occurrences(lists[n - 1], x);
        if a > b {
            a
        } else {
            b
        }
    }
}

/// Where the run of name bytes that starts at `i` ends.
pub open spec fn name_end(s: Seq<u8>, i: int) -> int
    decreases s.len() - i,
{
    if i < 0 || i >= s.len() || !is_name_byte(s[i]) {
        i
    } else {
        name_end(s, i + 1)
    }
}

pub proof fn lemma_name_end(s: Seq<u8>, i: int)
    requires
        0 <= i <= s.len(),
    ensures
        i <= name_end(s, i) <= s.len(),
        forall|k: int| i <= k < name_end(s, i) ==> is_name_byte(#[trigger] s[k]),
    decreases s.len() - i,
{
    if i < s.len() && is_name_byte(s[i]) {
        lemma_name_end(s, i + 1);
    }
}

fn skip_name(s: &[u8], i: usize) -> (r: usize)
    requires
        i <= s.len(),
    ensures
        r == name_end(s@, i as int),
        i <= r <= s.len(),
{
    proof {
        lemma_name_end(s@, i as int);
    }
    let mut k = i;
    while k < s.len() && ((0x30 <= s[k] && s[k] <= 0x39) || (0x41 <= s[k] && s[k] <= 0x5a) || (0x61
        <= s[k] && s[k] <= 0x7a))
        invariant
            i <= k <= s.len(),
            name_end(s@, i as int) == name_end(s@, k as int),
        decreases s.len() - k,
    {
        k += 1;
    }
    k
}

/// The code of the name `s[a..b]`, where it is one to eight name bytes.
pub open spec fn name_at(s: Seq<u8>, a: int, b: int) -> Option<u64> {
    if a < b && b - a <= 8 {
        Some(name_value(s.subrange(a, b)) as u64)
    } else {
        None
    }
}

fn code_of(s: &[u8], a: usize, b: usize) -> (r: Option<u64>)
    requires
        a <= b <= s.len(),
        forall|k: int| a <= k < b ==> is_name_byte(#[trigger] s@[k]),
    ensures
        r == name_at(s@, a as int, b as int),
{
    if a == b || b - a > 8 {
        return None;
    }
    let mut part: Vec<u8> = Vec::new();
    let mut k = a;
    while k < b
        invariant
            a <= k <= b <= s.len(),
            part@ == s@.subrange(a as int, k as int),
        decreases b - k,
    {
        part.push(s[k]);
        k += 1;
        assert(part@ =~= s@.subrange(a as int, k as int));
    }
    let r = name_code(part.as_slice());
    assert(r.is_some()) by {
        assert forall|i: int| 0 <= i < part@.len() implies is_name_byte(#[trigger] part@[i]) by {
            assert(part@[i] == s@[a + i]);
        }
    }
    r
}

pub open spec fn eq_paren() -> Seq<u8> {
    seq![0x20u8, 0x3d, 0x20, 0x28]
}

pub open spec fn comma_space() -> Seq<u8> {
    seq![0x2cu8, 0x20]
}

/// A node line `AAA = (BBB, CCC)` as the codes of its three names.
pub open spec fn node_spec(s: Seq<u8>) -> Option<(u64, u64, u64)> {
    let e1 = name_end(s, 0);
    let e2 = name_end(s, e1 + 4);
    let e3 = name_end(s, e2 + 2);
    if has_at(s, e1, eq_paren()) && has_at(s, e2, comma_space()) && e3 + 1 == s.len() && s[e3] == 0x29 {
        match (name_at(s, 0, e1), name_at(s, e1 + 4, e2), name_at(s, e2 + 2, e3)) {
            (Some(o), Some(l), Some(r)) => Some((o, l, r)),
            _ => None,
        }
    } else {
        None
    }
}

/// Reads a node line `AAA = (BBB, CCC)`.
pub fn parse_node(s: &[u8]) -> (r: Option<(u64, u64, u64)>)
    ensures
        r == node_spec(s@),
{
    let e1 = skip_name(s, 0);
    let tag1: [u8; 4] = [0x20, 0x3d, 0x20, 0x28];
    assert(tag1@ =~= eq_paren());
    if !tag_at(s, e1, tag1.as_slice()) {
        return None;
    }
    assert(e1 + 4 <= s.len());
    let e2 = skip_name(s, e1 + 4);
    let tag2: [u8; 2] = [0x2c, 0x20];
    assert(tag2@ =~= comma_space());
    if !tag_at(s, e2, tag2.as_slice()) {
        return None;
    }
    assert(e2 + 2 <= s.len());
    let e3 = skip_name(s, e2 + 2);
    if e3 >= s.len() || e3 + 1 != s.len() || s[e3] != 0x29 {
        return None;
    }
    proof {
        lemma_name_end(s@, 0);
        lemma_name_end(s@, e1 + 4);
        lemma_name_end(s@, e2 + 2);
    }
    let o = code_of(s, 0, e1);
    let l = code_of(s, e1 + 4, e2);
    let rr = code_of(s, e2 + 2, e3);
    match (o, l, rr) {
        (Some(o), Some(l), Some(rr)) => Some((o, l, rr)),
        _ => None,
    }
}

/// The table after entering each node of `nodes` in turn.
pub open spec fn table_of(nodes: Seq<(u64, u64, u64)>) -> Map<u64, (u64, u64)>
    decreases nodes.len(),
{
    if nodes.len() == 0 {
        Map::empty()
    } else {
        let n = nodes.last();
        table_of(nodes.drop_last()).insert(n.0, (n.1, n.2))
    }
}

/// Enters each node in a new table.
pub fn build_table(nodes: &Vec<(u64, u64, u64)>) -> (r: NodeMap)
    ensures
        node_entries(r) == table_of(nodes@),
{
    let mut m = NodeMap::new();
    let mut i: usize = 0;
    assert(node_entries(m) == table_of(nodes@.take(0)));
    while i < nodes.len()
        invariant
            i <= nodes.len(),
            node_entries(m) == table_of(nodes@.take(i as int)),
        decreases nodes.len() - i,
    {
        assert(nodes@.take(i + 1).drop_last() == nodes@.take(i as int));
        let (o, l, rr) = nodes[i];
        m.insert(o, (l, rr));
        i += 1;
    }
    assert(nodes@.take(nodes.len() as int) == nodes@);
    m
}

/// Adds to `soup` as many copies of each number of `factors` as it lacks to hold that number as
/// often as `factors` does.
pub fn add_to_soup(soup: &mut Vec<u64>, factors: &Vec<u64>)
    ensures
        forall|x: u64| #[trigger] occurrences(final(soup)@, x) == if occurrences(old(soup)@, x) > occurrences(factors@, x) {
            occurrences(old(soup)@, x)
        } else {
            occurrences(factors@, x)
        },
{
    let ghost start = soup@;
    let mut k: usize = 0;
    while k < factors.len()
        invariant
            k <= factors.len(),
            forall|x: u64| #[trigger] occurrences(soup@, x) == if factors@.take(k as int).contains(x) && occurrences(factors@, x) > occurrences(start, x) {
                occurrences(factors@, x)
            } else {
                occurrences(start, x)
            },
        decreases factors.len() - k,
    {
        let f = factors[k];
        let have = count(soup, f);
        let need = count(factors, f);
        let ghost before = soup@;
        if have < need {
            let mut j = have;
            while j < need
                invariant
                    have <= j <= need,
                    occurrences(soup@, f) == j,
                    forall|x: u64| x != f ==> #[trigger] occurrences(soup@, x) == occurrences(before, x),
                decreases need - j,
            {
                let ghost prev = soup@;
                soup.push(f);
                assert(soup@.drop_last() == prev);
                assert forall|x: u64| x != f implies #[trigger] occurrences(soup@, x) == occurrences(prev, x) by {
                    assert(soup@.last() == f);
                }
                j += 1;
            }
        }
        proof {
            assert forall|x: u64| #[trigger] occurrences(soup@, x) == if factors@.take(k + 1).contains(x) && occurrences(factors@, x) > occurrences(start, x) {
                occurrences(factors@, x)
            } else {
                occurrences(start, x)
            } by {
                assert(factors@.take(k + 1) == factors@.take(k as int).push(f));
                if x == f {
                    assert(factors@.take(k + 1)[k as int] == f);
                    if !factors@.take(k as int).contains(f) {
                        assert(occurrences(before, f) == occurrences(start, f));
                    }
                } else {
                    if factors@.take(k + 1).contains(x) {
                        let i = choose|i: int| 0 <= i < k + 1 && #[trigger] factors@.take(k + 1)[i] == x;
                        assert(factors@.take(k as int)[i] == x);
                    }
                }
            }
        }
        k += 1;
    }
    proof {
        assert(factors@.take(factors.len() as int) == factors@);
        assert forall|x: u64| #[trigger] occurrences(soup@, x) == if occurrences(start, x) > occurrences(factors@, x) {
            occurrences(start, x)
        } else {
            occurrences(factors@, x)
        } by {
            if occurrences(factors@, x) > 0 {
                lemma_occurs_contains(factors@, x);
            }
        }
    }
}

pub proof fn lemma_occurs_contains(s: Seq<u64>, x: u64)
    requires
        occurrences(s, x) > 0,
    ensures
        s.contains(x),
    decreases s.len(),
{
    if s.last() == x {
        assert(s[s.len() - 1] == x);
    } else {
        lemma_occurs_contains(s.drop_last(), x);
        let i = choose|i: int| 0 <= i < s.len() - 1 && #[trigger] s.drop_last()[i] == x;
        assert(s[i] == x);
    }
}

fn count(s: &Vec<u64>, x: u64) -> (r: usize)
    ensures
        r == occurrences(s@, x),
{
    let mut c: usize = 0;
    let mut i: usize = 0;
    while i < s.len()
        invariant
            i <= s.len(),
            c == occurrences(s@.take(i as int), x),
            c <= i,
        decreases s.len() - i,
    {
        assert(s@.take(i + 1).drop_last() == s@.take(i as int));
        if s[i] == x {
            c += 1;
        }
        i += 1;
    }
    assert(s@.take(s.len() as int) == s@);
    c
}

/// Product of the numbers, or `None` when it does not fit in 64 bits.
pub fn product_of(s: &Vec<u64>) -> (r: Option<u64>)
    ensures
        r matches Some(p) ==> p == product(s@),
        r.is_none() ==> exists|k: int| 0 < k <= s.len() && #[trigger] product(s@.take(k)) > u64::MAX,
{
    let mut p: u64 = 1;
    let mut i: usize = 0;
    while i < s.len()
        invariant
            i <= s.len(),
            p == product(s@.take(i as int)),
        decreases s.len() - i,
    {
        assert(s@.take(i + 1).drop_last() == s@.take(i as int));
        match p.checked_mul(s[i]) {
            Some(q) => {
                p = q;
            },
            None => {
                assert(product(s@.take(i + 1)) > u64::MAX);
                return None;
            },
        }
        i += 1;
    }
    assert(s@.take(s.len() as int) == s@);
    Some(p)
}

} // verus!
