//! Camel cards: the kind of each hand, with and without jokers, and the total winnings.

use vstd::prelude::*;

verus! {

/// The strength of a hand's kind, weakest first.
#[derive(Debug, Clone, Copy, PartialEq, Eq, Structural)]
pub enum Value {
    Nothing,
    OnePair,
    TwoPair,
    ThreeOfAKind,
    FullHouse,
    FourOfAKind,
    FiveOfAKind,
}

impl Value {
    pub open spec fn rank_spec(self) -> nat {
        match self {
            Value::Nothing => 0,
            Value::OnePair => 1,
            Value::TwoPair => 2,
            Value::ThreeOfAKind => 3,
            Value::FullHouse => 4,
            Value::FourOfAKind => 5,
            Value::FiveOfAKind => 6,
        }
    }

    pub fn rank(&self) -> (r: u64)
        ensures
            r == self.rank_spec(),
    {
        match self {
            Value::Nothing => 0,
            Value::OnePair => 1,
            Value::TwoPair => 2,
            Value::ThreeOfAKind => 3,
            Value::FullHouse => 4,
            Value::FourOfAKind => 5,
            Value::FiveOfAKind => 6,
        }
    }
}

/// The value of a joker, below every other card.
pub const JOKER_VALUE: i8 = 1;

/// The value of a jack before jokers are in play.
pub const JACK_VALUE: i8 = 11;

pub open spec fn card_value_spec(c: u8) -> Option<i8> {
    if 0x32 <= c <= 0x39 {
        Some((c - 0x30) as i8)
    } else if c == 0x54 {
        Some(10)
    } else if c == 0x4a {
        Some(11)
    } else if c == 0x51 {
        Some(12)
    } else if c == 0x4b {
        Some(13)
    } else if c == 0x41 {
        Some(14)
    } else {
        None
    }
}

/// The value of a card `2`..`9`, `T`, `J`, `Q`, `K` or `A`.
pub fn card_to_value(card: u8) -> (r: Option<i8>)
    ensures
        r == card_value_spec(card),
{
    if 0x32 <= card && card <= 0x39 {
        Some((card - 0x30) as i8)
    } else if card == 0x54 {
        Some(10)
    } else if card == 0x4a {
        Some(11)
    } else if card == 0x51 {
        Some(12)
    } else if card == 0x4b {
        Some(13)
    } else if card == 0x41 {
        Some(14)
    } else {
        None
    }
}

/// A hand of five cards and its bid.
#[derive(Debug, Clone)]
pub struct Hand {
    pub cards: Vec<i8>,
    pub bid: u64,
}

/// How many of `s` equal `x`.
pub open spec fn count_of(s: Seq<i8>, x: i8) -> nat
    decreases s.len(),
{
    if s.len() == 0 {
        0
    } else {
        count_of(s.drop_last(), x) + if s.last() == x {
            1nat
        } else {
            0nat
        }
    }
}

/// Number of different cards among the first `n`.
pub open spec fn distinct(s: Seq<i8>, n: int) -> nat
    decreases n,
{
    if n <= 0 {
        0
    } else {
        distinct(s, n - 1) + if count_of(s.take(n - 1), s[n - 1]) == 0 {
            1nat
        } else {
            0nat
        }
    }
}

/// The largest number of equal cards among the first `n`.
pub open spec fn most(s: Seq<i8>, n: int) -> nat
    decreases n,
{
    if n <= 0 {
        0
    } else {
        let m = most(s, n - 1);
        let c = count_of(s, s[n - 1]);
        if c > m {
            c
        } else {
            m
        }
    }
}

/// The kind of five cards, from how many different cards they hold and the most of one card.
pub open spec fn kind_of(d: nat, m: nat) -> Option<Value> {
    if d == 1 {
        Some(Value::FiveOfAKind)
    } else if d == 2 && m == 4 {
        Some(Value::FourOfAKind)
    } else if d == 2 && m == 3 {
        Some(Value::FullHouse)
    } else if d == 3 && m == 3 {
        Some(Value::ThreeOfAKind)
    } else if d == 3 && m == 2 {
        Some(Value::TwoPair)
    } else if d == 4 {
        Some(Value::OnePair)
    } else if d == 5 {
        Some(Value::Nothing)
    } else {
        None
    }
}

/// The kind of five cards, jokers standing in for whatever card helps most.
pub open spec fn value_of(cards: Seq<i8>) -> Option<Value> {
    if cards.len() != 5 {
        None
    } else {
        match kind_of(distinct(cards, 5), most(cards, 5)) {
            Some(v) => with_jokers_spec(v, count_of(cards, JOKER_VALUE)),
            None => None,
        }
    }
}

/// The sort key of five cards whose kind is known.
pub open spec fn key_of(cards: Seq<i8>) -> u64 {
    key_spec(value_of(cards)->Some_0.rank_spec(), cards) as u64
}

/// The cards with every jack played as a joker.
pub open spec fn joker_cards(cards: Seq<i8>) -> Seq<i8> {
    Seq::new(cards.len(), |i: int| if cards[i] == JACK_VALUE { JOKER_VALUE } else { cards[i] })
}

/// The kind once jokers stand in for whatever card helps most.
pub open spec fn with_jokers_spec(v: Value, jokers: nat) -> Option<Value> {
    if jokers == 0 {
        Some(v)
    } else {
        match v {
            Value::FiveOfAKind => if jokers == 5 { Some(Value::FiveOfAKind) } else { None },
            Value::FourOfAKind => if jokers == 1 || jokers == 4 { Some(Value::FiveOfAKind) } else { None },
            Value::FullHouse => if jokers == 2 || jokers == 3 { Some(Value::FiveOfAKind) } else { None },
            Value::ThreeOfAKind => if jokers == 1 || jokers == 3 { Some(Value::FourOfAKind) } else { None },
            Value::TwoPair => if jokers == 2 {
                Some(Value::FourOfAKind)
            } else if jokers == 1 {
                Some(Value::FullHouse)
            } else {
                None
            },
            Value::OnePair => if jokers == 1 || jokers == 2 { Some(Value::ThreeOfAKind) } else { None },
            Value::Nothing => if jokers == 1 { Some(Value::OnePair) } else { None },
        }
    }
}

fn count_in(s: &Vec<i8>, x: i8, n: usize) -> (r: usize)
    requires
        n <= s.len(),
    ensures
        r == count_of(s@.take(n as int), x),
        r <= n,
{
    let mut c: usize = 0;
    let mut i: usize = 0;
    while i < n
        invariant
            i <= n <= s.len(),
            c == count_of(s@.take(i as int), x),
            c <= i,
        decreases n - i,
    {
        assert(s@.take(i + 1).drop_last() == s@.take(i as int));
        if s[i] == x {
            c += 1;
        }
        i += 1;
    }
    c
}

impl Hand {
    /// The kind of the hand with every card taken at face value; `None` unless it has five
    /// cards.
    pub fn value_before_jokers(&self) -> (r: Option<Value>)
        ensures
            self.cards.len() != 5 ==> r.is_none(),
            self.cards.len() == 5 ==> r == kind_of(distinct(self.cards@, 5), most(self.cards@, 5)),
    {
        if self.cards.len() != 5 {
            return None;
        }
        let cards = &self.cards;
        let mut d: usize = 0;
        let mut m: usize = 0;
        let mut i: usize = 0;
        while i < 5
            invariant
                cards.len() == 5,
                i <= 5,
                d == distinct(cards@, i as int),
                m == most(cards@, i as int),
                d <= i,
                m <= 5,
            decreases 5 - i,
        {
            if count_in(cards, cards[i], i) == 0 {
                d += 1;
            }
            let c = count_in(cards, cards[i], 5);
            assert(cards@.take(5) == cards@);
            if c > m {
                m = c;
            }
            i += 1;
        }
        if d == 1 {
            Some(Value::FiveOfAKind)
        } else if d == 2 && m == 4 {
            Some(Value::FourOfAKind)
        } else if d == 2 && m == 3 {
            Some(Value::FullHouse)
        } else if d == 3 && m == 3 {
            Some(Value::ThreeOfAKind)
        } else if d == 3 && m == 2 {
            Some(Value::TwoPair)
        } else if d == 4 {
            Some(Value::OnePair)
        } else if d == 5 {
            Some(Value::Nothing)
        } else {
            None
        }
    }

    pub open spec fn value_spec(&self) -> Option<Value> {
        value_of(self.cards@)
    }

    /// The kind of the hand, jokers standing in for whatever card helps most.
    pub fn value(&self) -> (r: Option<Value>)
        ensures
            r == self.value_spec(),
    {
        let v = match self.value_before_jokers() {
            Some(v) => v,
            None => {
                return None;
            },
        };
        let jokers = count_in(&self.cards, JOKER_VALUE, 5);
        assert(self.cards@.take(5) == self.cards@);
        if jokers == 0 {
            return Some(v);
        }
        match v {
            Value::FiveOfAKind => if jokers == 5 { Some(Value::FiveOfAKind) } else { None },
            Value::FourOfAKind => if jokers == 1 || jokers == 4 { Some(Value::FiveOfAKind) } else { None },
            Value::FullHouse => if jokers == 2 || jokers == 3 { Some(Value::FiveOfAKind) } else { None },
            Value::ThreeOfAKind => if jokers == 1 || jokers == 3 { Some(Value::FourOfAKind) } else { None },
            Value::TwoPair => if jokers == 2 {
                Some(Value::FourOfAKind)
            } else if jokers == 1 {
                Some(Value::FullHouse)
            } else {
                None
            },
            Value::OnePair => if jokers == 1 || jokers == 2 { Some(Value::ThreeOfAKind) } else { None },
            Value::Nothing => if jokers == 1 { Some(Value::OnePair) } else { None },
        }
    }

    /// The hand with every jack played as a joker.
    pub fn with_jokers(&self) -> (r: Hand)
        ensures
            r.bid == self.bid,
            r.cards.len() == self.cards.len(),
            forall|i: int| 0 <= i < self.cards.len() ==> #[trigger] r.cards@[i] == if self.cards@[i] == JACK_VALUE {
                JOKER_VALUE
            } else {
                self.cards@[i]
            },
    {
        let mut cards: Vec<i8> = Vec::new();
        let mut i: usize = 0;
        while i < self.cards.len()
            invariant
                i <= self.cards.len(),
                cards.len() == i,
                forall|k: int| 0 <= k < i ==> #[trigger] cards@[k] == if self.cards@[k] == JACK_VALUE {
                    JOKER_VALUE
                } else {
                    self.cards@[k]
                },
            decreases self.cards.len() - i,
        {
            cards.push(if self.cards[i] == JACK_VALUE { JOKER_VALUE } else { self.cards[i] });
            i += 1;
        }
        Hand { cards, bid: self.bid }
    }
}

/// The number whose hexadecimal digits are the kind's rank and then the five cards: hands
/// compare by kind and then card by card exactly as their keys compare.
pub open spec fn key_spec(rank: nat, cards: Seq<i8>) -> int {
    (((((rank * 16 + cards[0]) * 16 + cards[1]) * 16 + cards[2]) * 16 + cards[3]) * 16 + cards[4])
}

/// Every card is a joker or a face value from 2 to 14.
pub open spec fn cards_ok(cards: Seq<i8>) -> bool {
    cards.len() == 5 && forall|i: int| 0 <= i < 5 ==> 1 <= #[trigger] cards[i] <= 14
}

/// The sort key of a hand.
pub fn hand_key(h: &Hand) -> (r: Option<u64>)
    requires
        cards_ok(h.cards@),
    ensures
        r matches Some(k) ==> h.value_spec() matches Some(v) && k == key_spec(v.rank_spec(), h.cards@),
        r.is_none() ==> h.value_spec().is_none(),
{
    let v = match h.value() {
        Some(v) => v,
        None => {
            return None;
        },
    };
    let c = &h.cards;
    let r = v.rank();
    let k = ((((r * 16 + c[0] as u64) * 16 + c[1] as u64) * 16 + c[2] as u64) * 16 + c[3] as u64) * 16 + c[4] as u64;
    Some(k)
}

pub open spec fn count_below(keys: Seq<u64>, x: u64, n: int) -> nat
    decreases n,
{
    if n <= 0 {
        0
    } else {
        count_below(keys, x, n - 1) + if keys[n - 1] < x {
            1nat
        } else {
            0nat
        }
    }
}

pub open spec fn count_equal(keys: Seq<u64>, x: u64, n: int) -> nat
    decreases n,
{
    if n <= 0 {
        0
    } else {
        count_equal(keys, x, n - 1) + if keys[n - 1] == x {
            1nat
        } else {
            0nat
        }
    }
}

/// The total winnings: each bid times its hand's place in the stable order of the keys.
pub open spec fn winnings(keys: Seq<u64>, bids: Seq<u64>, n: int) -> nat
    decreases n,
{
    if n <= 0 {
        0
    } else {
        winnings(keys, bids, n - 1) + (bids[n - 1] as nat) * (1 + count_below(
            keys,
            keys[n - 1],
            keys.len() as int,
        ) + count_equal(keys, keys[n - 1], n - 1))
    }
}

pub proof fn lemma_winnings_prefix(keys: Seq<u64>, bids: Seq<u64>, i: int, n: int)
    requires
        0 <= i <= n,
    ensures
        winnings(keys, bids, i) <= winnings(keys, bids, n),
    decreases n - i,
{
    if i < n {
        lemma_winnings_prefix(keys, bids, i, n - 1);
    }
}

/// The total winnings of hands given by their keys and bids; `None` when it does not fit in
/// 64 bits.
pub fn total_winnings(keys: &Vec<u64>, bids: &Vec<u64>) -> (r: Option<u64>)
    requires
        keys.len() == bids.len(),
    ensures
        r matches Some(t) ==> t == winnings(keys@, bids@, keys.len() as int),
        r.is_none() ==> winnings(keys@, bids@, keys.len() as int) > u64::MAX,
{
    let n = keys.len();
    let mut total: u64 = 0;
    let mut i: usize = 0;
    while i < n
        invariant
            i <= n,
            n == keys.len(),
            n == bids.len(),
            total == winnings(keys@, bids@, i as int),
        decreases n - i,
    {
        let mut below: u64 = 0;
        let mut j: usize = 0;
        while j < n
            invariant
                i < n,
                n == keys.len(),
                j <= n,
                below == count_below(keys@, keys@[i as int], j as int),
                below <= j,
            decreases n - j,
        {
            if keys[j] < keys[i] {
                below += 1;
            }
            j += 1;
        }
        let mut equal: u64 = 0;
        let mut j: usize = 0;
        while j < i
            invariant
                i < n,
                n == keys.len(),
                j <= i,
                equal == count_equal(keys@, keys@[i as int], j as int),
                equal <= j,
            decreases i - j,
        {
            if keys[j] == keys[i] {
                equal += 1;
            }
            j += 1;
        }
        let place = below as u128 + equal as u128 + 1;
        let step = total as u128 + match (bids[i] as u128).checked_mul(place) {
            Some(x) => {
                if x > u64::MAX as u128 {
                    proof {
                        lemma_winnings_prefix(keys@, bids@, i + 1, n as int);
                    }
                    return None;
                }
                x
            },
            None => {
                proof {
                    lemma_winnings_prefix(keys@, bids@, i + 1, n as int);
                }
                return None;
            },
        };
        if step > u64::MAX as u128 {
            proof {
                lemma_winnings_prefix(keys@, bids@, i + 1, n as int);
            }
            return None;
        }
        total = step as u64;
        i += 1;
    }
    Some(total)
}

/// A line `<five cards> <bid>`: five card characters, spaces, and a number running to the end.
pub open spec fn hand_spec(line: Seq<u8>) -> Option<(Seq<i8>, u64)> {
    let p = crate::text::spaces_end(line, 5);
    let e = crate::text::digits_end(line, p);
    if line.len() > 5 && (forall|k: int| 0 <= k < 5 ==> #[trigger] card_value_spec(line[k]).is_some()) && p
        > 5 && e > p && e == line.len() && crate::text::digits_value(line.subrange(p, e)) <= u64::MAX {
        Some(
            (
                Seq::new(5, |k: int| card_value_spec(line[k])->Some_0),
                crate::text::digits_value(line.subrange(p, e)) as u64,
            ),
        )
    } else {
        None
    }
}

/// Reads `<five cards> <bid>`.
pub fn parse_hand(line: &[u8]) -> (r: Option<Hand>)
    ensures
        r matches Some(h) ==> hand_spec(line@) == Some((h.cards@, h.bid)),
        r.is_none() ==> hand_spec(line@).is_none(),
{
    if line.len() <= 5 {
        return None;
    }
    let mut cards: Vec<i8> = Vec::new();
    let mut i: usize = 0;
    while i < 5
        invariant
            i <= 5 < line.len(),
            cards.len() == i,
            forall|k: int| 0 <= k < i ==> card_value_spec(line@[k]) == Some(#[trigger] cards@[k]),
        decreases 5 - i,
    {
        match card_to_value(line[i]) {
            Some(v) => cards.push(v),
            None => {
                return None;
            },
        }
        i += 1;
    }
    assert(forall|k: int| 0 <= k < 5 ==> #[trigger] card_value_spec(line@[k]).is_some()) by {
        assert forall|k: int| 0 <= k < 5 implies #[trigger] card_value_spec(line@[k]).is_some() by {
            assert(card_value_spec(line@[k]) == Some(cards@[k]));
        }
    }
    assert(cards@ =~= Seq::new(5, |k: int| card_value_spec(line@[k])->Some_0));
    let at = crate::text::skip_spaces(line, 5);
    if at == 5 {
        return None;
    }
    proof {
        crate::text::lemma_digits_end(line@, at as int);
    }
    match crate::text::parse_number(line, at) {
        Some((bid, e)) => if e == line.len() {
            Some(Hand { cards, bid })
        } else {
            None
        },
        None => None,
    }
}

/// The hands of `ls`, one per line, or `None` where a line does not read.
pub open spec fn hands_of(ls: Seq<Seq<u8>>) -> Option<Seq<(Seq<i8>, u64)>>
    decreases ls.len(),
{
    if ls.len() == 0 {
        Some(Seq::empty())
    } else {
        match (hands_of(ls.drop_last()), hand_spec(ls.last())) {
            (Some(hs), Some(h)) => Some(hs.push(h)),
            _ => None,
        }
    }
}

/// The cards of the first `k` lines are the first `k` hands of all the lines.
pub proof fn lemma_hands_prefix(ls: Seq<Seq<u8>>, k: int)
    requires
        0 <= k <= ls.len(),
    ensures
        hands_of(ls.take(k)).is_none() ==> hands_of(ls).is_none(),
        hands_of(ls.take(k)).is_some() && hands_of(ls).is_some() ==> hands_of(ls)->Some_0.take(k)
            == hands_of(ls.take(k))->Some_0,
        hands_of(ls).is_some() ==> hands_of(ls)->Some_0.len() == ls.len(),
    decreases ls.len() - k,
{
    if k < ls.len() {
        assert(ls.take(k + 1).drop_last() == ls.take(k));
        lemma_hands_prefix(ls, k + 1);
        if hands_of(ls.take(k + 1)).is_some() && hands_of(ls).is_some() {
            let full = hands_of(ls)->Some_0;
            let pre = hands_of(ls.take(k + 1))->Some_0;
            assert(pre.drop_last() == hands_of(ls.take(k))->Some_0);
            assert(full.take(k) =~= pre.take(k));
            assert(pre.take(k) == pre.drop_last());
        }
    } else {
        assert(ls.take(k) == ls);
        lemma_hands_len(ls);
    }
}

proof fn lemma_hands_len(ls: Seq<Seq<u8>>)
    ensures
        hands_of(ls).is_some() ==> hands_of(ls)->Some_0.len() == ls.len(),
    decreases ls.len(),
{
    if ls.len() > 0 {
        lemma_hands_len(ls.drop_last());
    }
}

/// Every hand has a kind, with jacks as they are and played as jokers.
pub open spec fn kinds_known(hs: Seq<(Seq<i8>, u64)>) -> bool {
    forall|i: int|
        0 <= i < hs.len() ==> value_of((#[trigger] hs[i]).0).is_some() && value_of(joker_cards(hs[i].0)).is_some()
}

/// The sort keys of the hands, with jacks as they are or played as jokers.
pub open spec fn hand_keys(hs: Seq<(Seq<i8>, u64)>, jokers: bool) -> Seq<u64> {
    Seq::new(hs.len(), |i: int| key_of(if jokers { joker_cards(hs[i].0) } else { hs[i].0 }))
}

/// The bids of the hands.
pub open spec fn hand_bids(hs: Seq<(Seq<i8>, u64)>) -> Seq<u64> {
    Seq::new(hs.len(), |i: int| hs[i].1)
}

/// The total winnings of the hands, with jacks as they are or played as jokers.
pub open spec fn hands_winnings(hs: Seq<(Seq<i8>, u64)>, jokers: bool) -> nat {
    winnings(hand_keys(hs, jokers), hand_bids(hs), hs.len() as int)
}

/// Both answers for the hands of `input`, one per line: the total winnings, and the total
/// winnings with jacks played as jokers.  `None` where a line does not read, a hand has no
/// kind, or a total does not fit in 64 bits.
pub fn solve(input: &[u8]) -> (r: Option<(u64, u64)>)
    ensures
        r matches Some((a, b)) ==> hands_of(crate::text::lines_of(input@)) matches Some(hs) && a
            == hands_winnings(hs, false) && b == hands_winnings(hs, true),
        r.is_some() <==> (hands_of(crate::text::lines_of(input@)) matches Some(hs) && kinds_known(hs)
            && hands_winnings(hs, false) <= u64::MAX && hands_winnings(hs, true) <= u64::MAX),
{
    let ls = crate::text::lines(input);
    let ghost lv = ls@.map_values(|v: Vec<u8>| v@);
    assert(lv == crate::text::lines_of(input@));
    let ghost mut hs: Seq<(Seq<i8>, u64)> = Seq::empty();
    let mut keys: Vec<u64> = Vec::new();
    let mut joker_keys: Vec<u64> = Vec::new();
    let mut bids: Vec<u64> = Vec::new();
    let mut i: usize = 0;
    while i < ls.len()
        invariant
            i <= ls.len(),
            lv == ls@.map_values(|v: Vec<u8>| v@),
            lv == crate::text::lines_of(input@),
            hands_of(lv.take(i as int)) == Some(hs),
            kinds_known(hs),
            hs.len() == i,
            keys.len() == i && joker_keys.len() == i && bids.len() == i,
            forall|k: int| 0 <= k < i ==> #[trigger] keys@[k] == key_of(hs[k].0),
            forall|k: int| 0 <= k < i ==> #[trigger] joker_keys@[k] == key_of(joker_cards(hs[k].0)),
            forall|k: int| 0 <= k < i ==> #[trigger] bids@[k] == hs[k].1,
        decreases ls.len() - i,
    {
        assert(lv.take(i + 1).drop_last() == lv.take(i as int));
        assert(lv.take(i + 1).last() == ls@[i as int]@);
        let hand = match parse_hand(ls[i].as_slice()) {
            Some(h) => h,
            None => {
                proof {
                    lemma_hands_prefix(lv, i + 1);
                }
                return None;
            },
        };
        let ghost h = (hand.cards@, hand.bid);
        assert(hands_of(lv.take(i + 1)) == Some(hs.push(h)));
        assert(cards_ok(hand.cards@)) by {
            assert forall|k: int| 0 <= k < 5 implies 1 <= #[trigger] hand.cards@[k] <= 14 by {
                assert(card_value_spec(ls@[i as int]@[k]) == Some(hand.cards@[k]));
            }
        }
        let joker = hand.with_jokers();
        assert(joker.cards@ =~= joker_cards(hand.cards@));
        assert(cards_ok(joker.cards@)) by {
            assert forall|k: int| 0 <= k < 5 implies 1 <= #[trigger] joker.cards@[k] <= 14 by {
                assert(1 <= hand.cards@[k] <= 14);
            }
        }
        let k1 = match hand_key(&hand) {
            Some(k) => k,
            None => {
                proof {
                    lemma_hands_prefix(lv, i + 1);
                    if let Some(full) = hands_of(lv) {
                        assert(full.take(i + 1)[i as int] == full[i as int]);
                        assert(full[i as int] == h);
                    }
                }
                return None;
            },
        };
        let k2 = match hand_key(&joker) {
            Some(k) => k,
            None => {
                proof {
                    lemma_hands_prefix(lv, i + 1);
                    if let Some(full) = hands_of(lv) {
                        assert(full.take(i + 1)[i as int] == full[i as int]);
                        assert(full[i as int] == h);
                    }
                }
                return None;
            },
        };
        proof {
            let old_hs = hs;
            hs = hs.push(h);
            assert forall|q: int| 0 <= q < hs.len() implies value_of((#[trigger] hs[q]).0).is_some() && value_of(
                joker_cards(hs[q].0),
            ).is_some() by {
                if q < i {
                    assert(hs[q] == old_hs[q]);
                }
            }
        }
        keys.push(k1);
        joker_keys.push(k2);
        bids.push(hand.bid);
        i += 1;
    }
    assert(lv.take(ls.len() as int) == lv);
    assert(keys@ =~= hand_keys(hs, false));
    assert(joker_keys@ =~= hand_keys(hs, true));
    assert(bids@ =~= hand_bids(hs));
    let a = match total_winnings(&keys, &bids) {
        Some(a) => a,
        None => {
            return None;
        },
    };
    let b = match total_winnings(&joker_keys, &bids) {
        Some(b) => b,
        None => {
            return None;
        },
    };
    Some((a, b))
}

} // verus!
