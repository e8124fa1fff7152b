//! Piecewise shifts of the integers: normalized interval maps, lookup and flattening of a
//! pipeline of maps.

use vstd::prelude::*;
use crate::text::{has_at, number_list, parse_number_list, tag_at};

verus! {

/// End of the domain: every normalized map covers `[0, DOMAIN_END)`.
pub const DOMAIN_END: i64 = 0x7fff_ffff_ffff_ffff;

/// A half-open interval `[start, start + length)` whose values are moved by `shift`.
#[derive(Debug, Clone, Copy, PartialEq, Eq)]
pub struct Range {
    pub start: i64,
    pub length: i64,
    pub shift: i64,
}

impl Range {
    pub open spec fn end_spec(&self) -> int {
        self.start + self.length
    }

    pub open spec fn contains(&self, v: int) -> bool {
        self.start <= v < self.end_spec()
    }

    /// The interval lies in the domain and so does its image.
    pub open spec fn valid(&self) -> bool {
        &&& 0 <= self.start
        &&& 0 <= self.length
        &&& self.end_spec() <= DOMAIN_END
        &&& 0 <= self.start + self.shift
        &&& self.end_spec() + self.shift <= DOMAIN_END
    }

    /// The identity range over the whole domain.
    pub fn empty() -> (r: Range)
        ensures
            r.start == 0,
            r.length == DOMAIN_END,
            r.shift == 0,
            r.valid(),
    {
        Range { start: 0, length: DOMAIN_END, shift: 0 }
    }

    pub fn end(&self) -> (r: i64)
        requires
            self.start + self.length <= i64::MAX,
            i64::MIN <= self.start + self.length,
        ensures
            r == self.end_spec(),
    {
        self.start + self.length
    }

    /// The shifted value when `value` lies in the interval.
    pub fn map_value(&self, value: i64) -> (r: Option<i64>)
        requires
            self.valid(),
        ensures
            r == (if self.contains(value as int) {
                Some((value + self.shift) as i64)
            } else {
                None::<i64>
            }),
    {
        if value >= self.start && value < self.end() {
            Some(value + self.shift)
        } else {
            None
        }
    }
}

/// Two intervals share no value.
pub open spec fn apart(a: Range, b: Range) -> bool {
    a.length == 0 || b.length == 0 || a.end_spec() <= b.start || b.end_spec() <= a.start
}

pub open spec fn pairwise_apart(rs: Seq<Range>) -> bool {
    forall|i: int, j: int|
        0 <= i < rs.len() && 0 <= j < rs.len() && i != j ==> apart(#[trigger] rs[i], #[trigger] rs[j])
}

/// The value `v` moved by the last range of `rs` that holds it, or `v` itself where none does.
pub open spec fn lookup(rs: Seq<Range>, v: int) -> int
    decreases rs.len(),
{
    if rs.len() == 0 {
        v
    } else if rs.last().contains(v) {
        v + rs.last().shift
    } else {
        lookup(rs.drop_last(), v)
    }
}

/// `rs` are non-empty valid ranges laid end to end from 0 up to `e`.
pub open spec fn chain(rs: Seq<Range>, e: int) -> bool {
    &&& forall|i: int| 0 <= i < rs.len() ==> (#[trigger] rs[i]).valid() && rs[i].length > 0
    &&& forall|i: int| 0 <= i < rs.len() - 1 ==> (#[trigger] rs[i]).end_spec() == rs[i + 1].start
    &&& if rs.len() == 0 {
        e == 0
    } else {
        rs[0].start == 0 && rs.last().end_spec() == e
    }
}

pub proof fn lemma_lookup_hit(rs: Seq<Range>, i: int, v: int)
    requires
        pairwise_apart(rs),
        0 <= i < rs.len(),
        rs[i].contains(v),
    ensures
        lookup(rs, v) == v + rs[i].shift,
    decreases rs.len(),
{
    if i != rs.len() - 1 {
        assert(apart(rs[i], rs[rs.len() - 1]));
        let d = rs.drop_last();
        assert(pairwise_apart(d)) by {
            assert forall|p: int, q: int|
                0 <= p < d.len() && 0 <= q < d.len() && p != q implies apart(
                #[trigger] d[p],
                #[trigger] d[q],
            ) by {
                assert(d[p] == rs[p] && d[q] == rs[q]);
            }
        }
        lemma_lookup_hit(d, i, v);
    }
}

pub proof fn lemma_lookup_miss(rs: Seq<Range>, v: int)
    requires
        forall|i: int| 0 <= i < rs.len() ==> !(#[trigger] rs[i]).contains(v),
    ensures
        lookup(rs, v) == v,
    decreases rs.len(),
{
    if rs.len() > 0 {
        let d = rs.drop_last();
        assert(!rs[rs.len() - 1].contains(v));
        assert forall|i: int| 0 <= i < d.len() implies !(#[trigger] d[i]).contains(v) by {
            assert(d[i] == rs[i]);
        }
        lemma_lookup_miss(d, v);
    }
}

/// In a chain, every range ends before any later one starts.
pub proof fn lemma_chain_sorted(rs: Seq<Range>, e: int)
    requires
        chain(rs, e),
    ensures
        forall|i: int, j: int|
            0 <= i < j < rs.len() ==> (#[trigger] rs[i]).end_spec() <= (#[trigger] rs[j]).start,
        pairwise_apart(rs),
    decreases rs.len(),
{
    if rs.len() > 0 {
        let d = rs.drop_last();
        let n = rs.len() - 1;
        if n > 0 {
            assert(chain(d, rs[n - 1].end_spec())) by {
                assert forall|i: int| 0 <= i < d.len() - 1 implies (#[trigger] d[i]).end_spec()
                    == d[i + 1].start by {
                    assert(d[i] == rs[i] && d[i + 1] == rs[i + 1]);
                }
            }
        } else {
            assert(chain(d, 0));
        }
        let de = if n > 0 { rs[n - 1].end_spec() } else { 0 };
        lemma_chain_sorted(d, de);
        assert forall|i: int, j: int| 0 <= i < j < rs.len() implies (#[trigger] rs[i]).end_spec()
            <= (#[trigger] rs[j]).start by {
            if j < n {
                assert(d[i] == rs[i] && d[j] == rs[j]);
            } else if i < n - 1 {
                assert(d[i] == rs[i] && d[n - 1] == rs[n - 1]);
                assert(rs[i].end_spec() <= rs[n - 1].start);
                assert(rs[n - 1].end_spec() == rs[n].start);
            }
        }
        assert forall|i: int, j: int|
            0 <= i < rs.len() && 0 <= j < rs.len() && i != j implies apart(
            #[trigger] rs[i],
            #[trigger] rs[j],
        ) by {
            if i < j {
                assert(rs[i].end_spec() <= rs[j].start);
            } else {
                assert(rs[j].end_spec() <= rs[i].start);
            }
        }
    }
}

/// A chain up to `e` holds every value of `[0, e)`.
pub proof fn lemma_chain_covers(rs: Seq<Range>, e: int, v: int)
    requires
        chain(rs, e),
        0 <= v < e,
    ensures
        exists|i: int| 0 <= i < rs.len() && (#[trigger] rs[i]).contains(v),
    decreases rs.len(),
{
    let n = rs.len() - 1;
    if rs[n].contains(v) {
        assert(rs[n].contains(v));
    } else {
        let d = rs.drop_last();
        assert(chain(d, rs[n].start as int)) by {
            assert forall|i: int| 0 <= i < d.len() - 1 implies (#[trigger] d[i]).end_spec()
                == d[i + 1].start by {
                assert(d[i] == rs[i] && d[i + 1] == rs[i + 1]);
            }
            if n > 0 {
                assert(rs[n - 1].end_spec() == rs[n].start);
            }
        }
        lemma_chain_covers(d, rs[n].start as int, v);
        let i = choose|i: int| 0 <= i < d.len() && (#[trigger] d[i]).contains(v);
        assert(rs[i] == d[i]);
    }
}

/// Every non-empty range of `rs` that starts before `e` is among `out`.
#[verifier::opaque]
pub open spec fn keeps(rs: Seq<Range>, out: Seq<Range>, e: int) -> bool {
    forall|i: int| 0 <= i < rs.len() && (#[trigger] rs[i]).length > 0 && rs[i].start < e ==> out.contains(rs[i])
}

/// Every range of `out` is one of `rs` or moves nothing.
#[verifier::opaque]
pub open spec fn from_inputs(rs: Seq<Range>, out: Seq<Range>) -> bool {
    forall|j: int| 0 <= j < out.len() ==> rs.contains(#[trigger] out[j]) || out[j].shift == 0
}

/// A piecewise shift of the whole domain from one named domain to another.
#[derive(Debug)]
pub struct Day5Map {
    pub from: String,
    pub to: String,
    pub ranges: Vec<Range>,
}

impl Day5Map {
    /// Sorted, gap-free, non-overlapping ranges covering `[0, DOMAIN_END)`.
    pub open spec fn wf(&self) -> bool {
        chain(self.ranges@, DOMAIN_END as int)
    }

    pub open spec fn apply(&self, v: int) -> int {
        lookup(self.ranges@, v)
    }

    /// Normalizes `ranges`: sorts them by start and fills every gap with an identity range.
    #[verifier::rlimit(100)]
    pub fn new(from: String, to: String, ranges: Vec<Range>) -> (m: Day5Map)
        requires
            forall|i: int| 0 <= i < ranges.len() ==> (#[trigger] ranges[i]).valid(),
            pairwise_apart(ranges@),
        ensures
            m.wf(),
            m.from == from,
            m.to == to,
            forall|v: int| 0 <= v < DOMAIN_END ==> m.apply(v) == lookup(ranges@, v),
            forall|i: int| 0 <= i < ranges.len() && (#[trigger] ranges[i]).length > 0 ==> m.ranges@.contains(ranges[i]),
            forall|j: int| 0 <= j < m.ranges.len() ==> ranges@.contains(#[trigger] m.ranges@[j]) || m.ranges@[j].shift == 0,
    {
        let mut new_ranges: Vec<Range> = Vec::new();
        let mut last_end: i64 = 0;
        proof {
            reveal(keeps);
            reveal(from_inputs);
        }
        loop
            invariant
                0 <= last_end <= DOMAIN_END,
                forall|i: int| 0 <= i < ranges.len() ==> (#[trigger] ranges[i]).valid(),
                pairwise_apart(ranges@),
                chain(new_ranges@, last_end as int),
                forall|i: int|
                    0 <= i < ranges.len() && (#[trigger] ranges[i]).start < last_end
                        ==> ranges[i].length == 0 || ranges[i].end_spec() <= last_end,
                forall|v: int| 0 <= v < last_end ==> lookup(new_ranges@, v) == lookup(ranges@, v),
                from_inputs(ranges@, new_ranges@),
                keeps(ranges@, new_ranges@, last_end as int),
            decreases DOMAIN_END - last_end,
        {
            // the non-empty range with the smallest start at or after `last_end`
            let mut best: usize = ranges.len();
            let mut j: usize = 0;
            while j < ranges.len()
                invariant
                    j <= ranges.len(),
                    best == ranges.len() || (best < j && ranges[best as int].length > 0
                        && ranges[best as int].start >= last_end),
                    forall|k: int|
                        0 <= k < j && (#[trigger] ranges[k]).length > 0 && ranges[k].start
                            >= last_end ==> best < ranges.len() && ranges[best as int].start
                            <= ranges[k].start,
                decreases ranges.len() - j,
            {
                let r = ranges[j];
                if r.length > 0 && r.start >= last_end && (best == ranges.len()
                    || r.start < ranges[best].start) {
                    best = j;
                }
                j += 1;
            }
            if best == ranges.len() {
                proof {
                    assert forall|v: int| last_end <= v < DOMAIN_END implies lookup(ranges@, v)
                        == v by {
                        assert forall|i: int| 0 <= i < ranges.len() implies !(
                        #[trigger] ranges[i]).contains(v) by {
                            if ranges[i].start >= last_end {
                                assert(ranges[i].length == 0);
                            }
                        }
                        lemma_lookup_miss(ranges@, v);
                    }
                }
                proof {
                    assert forall|i: int| 0 <= i < ranges.len() && (#[trigger] ranges[i]).length > 0 implies ranges[i].start
                        < last_end by {}
                }
                if last_end < DOMAIN_END {
                    let ghost prev = new_ranges@;
                    new_ranges.push(Range { start: last_end, length: DOMAIN_END - last_end, shift: 0 });
                    proof {
                        assert(keeps(ranges@, new_ranges@, DOMAIN_END as int) && from_inputs(ranges@, new_ranges@)) by {
                            reveal(keeps);
                            reveal(from_inputs);
                            assert forall|i: int| 0 <= i < ranges.len() && (#[trigger] ranges[i]).length > 0 && ranges[i].start
                                < DOMAIN_END implies new_ranges@.contains(ranges[i]) by {
                                vstd::seq_lib::lemma_seq_contains_after_push(prev, new_ranges@.last(), ranges[i]);
                            }
                            assert forall|j: int| 0 <= j < new_ranges.len() implies ranges@.contains(#[trigger] new_ranges@[j])
                                || new_ranges@[j].shift == 0 by {
                                if j < prev.len() {
                                    assert(new_ranges@[j] == prev[j]);
                                }
                            }
                        }
                        assert(new_ranges@.drop_last() == prev);
                        if prev.len() > 0 {
                            assert(new_ranges@[prev.len() - 1] == prev[prev.len() - 1]);
                        }
                        assert forall|v: int| 0 <= v < DOMAIN_END implies lookup(new_ranges@, v)
                            == lookup(ranges@, v) by {
                            if v < last_end {
                                assert(lookup(new_ranges@, v) == lookup(prev, v));
                            }
                        }
                        assert forall|i: int| 0 <= i < new_ranges.len() - 1 implies (
                        #[trigger] new_ranges@[i]).end_spec() == new_ranges@[i + 1].start by {
                            assert(new_ranges@[i] == prev[i]);
                        }
                    }
                }
                proof {
                    reveal(keeps);
                    reveal(from_inputs);
                }
                return Day5Map { from, to, ranges: new_ranges };
            }
            let r = ranges[best];
            proof {
                assert(r == ranges@[best as int]);
                // nothing in [last_end, r.start) is covered by an input range
                assert forall|v: int| last_end <= v < r.start implies lookup(ranges@, v) == v by {
                    assert forall|i: int| 0 <= i < ranges.len() implies !(
                    #[trigger] ranges[i]).contains(v) by {
                        if ranges[i].start >= last_end && ranges[i].length > 0 {
                            assert(ranges[best as int].start <= ranges[i].start);
                        }
                    }
                    lemma_lookup_miss(ranges@, v);
                }
                assert forall|v: int| r.contains(v) implies lookup(ranges@, v) == v + r.shift by {
                    lemma_lookup_hit(ranges@, best as int, v);
                }
                assert forall|i: int|
                    0 <= i < ranges.len() && (#[trigger] ranges[i]).start < r.end_spec() implies
                    ranges[i].length == 0 || ranges[i].end_spec() <= r.end_spec() by {
                    if i != best && ranges[i].start >= last_end && ranges[i].length > 0 {
                        assert(apart(ranges[i], ranges[best as int]));
                    }
                }
            }
            proof {
                assert forall|i: int|
                    0 <= i < ranges.len() && (#[trigger] ranges[i]).length > 0 && ranges[i].start < r.end_spec()
                        && ranges[i].start >= last_end implies i == best by {
                    assert(ranges[best as int].start <= ranges[i].start);
                    if i != best {
                        assert(apart(ranges[i], ranges[best as int]));
                    }
                }
            }
            if r.start > last_end {
                let ghost prev = new_ranges@;
                new_ranges.push(Range { start: last_end, length: r.start - last_end, shift: 0 });
                proof {
                    assert(keeps(ranges@, new_ranges@, r.start as int) && from_inputs(ranges@, new_ranges@)) by {
                        reveal(keeps);
                        reveal(from_inputs);
                        assert forall|j: int| 0 <= j < new_ranges.len() implies ranges@.contains(#[trigger] new_ranges@[j])
                            || new_ranges@[j].shift == 0 by {
                            if j < prev.len() {
                                assert(new_ranges@[j] == prev[j]);
                            }
                        }
                        assert forall|i: int|
                            0 <= i < ranges.len() && (#[trigger] ranges[i]).length > 0 && ranges[i].start < r.start
                                implies new_ranges@.contains(ranges[i]) by {
                            if ranges[i].start >= last_end {
                                assert(i == best);
                            }
                            vstd::seq_lib::lemma_seq_contains_after_push(prev, new_ranges@.last(), ranges[i]);
                        }
                    }
                    assert(new_ranges@.drop_last() == prev);
                    if prev.len() > 0 {
                        assert(new_ranges@[prev.len() - 1] == prev[prev.len() - 1]);
                    }
                    assert forall|i: int| 0 <= i < new_ranges.len() - 1 implies (
                    #[trigger] new_ranges@[i]).end_spec() == new_ranges@[i + 1].start by {
                        assert(new_ranges@[i] == prev[i]);
                    }
                    assert forall|v: int| 0 <= v < r.start implies lookup(new_ranges@, v)
                        == lookup(ranges@, v) by {
                        if v < last_end {
                            assert(lookup(new_ranges@, v) == lookup(prev, v));
                        }
                    }
                }
                last_end = r.start;
            }
            let ghost prev = new_ranges@;
            new_ranges.push(r);
            proof {
                assert(keeps(ranges@, new_ranges@, r.end_spec()) && from_inputs(ranges@, new_ranges@)) by {
                    reveal(keeps);
                    reveal(from_inputs);
                    assert(ranges@.contains(r)) by {
                        assert(ranges@[best as int] == r);
                    }
                    assert forall|j: int| 0 <= j < new_ranges.len() implies ranges@.contains(#[trigger] new_ranges@[j])
                        || new_ranges@[j].shift == 0 by {
                        if j < prev.len() {
                            assert(new_ranges@[j] == prev[j]);
                        }
                    }
                    assert forall|i: int|
                        0 <= i < ranges.len() && (#[trigger] ranges[i]).length > 0 && ranges[i].start < r.end_spec()
                            implies new_ranges@.contains(ranges[i]) by {
                        if ranges[i].start >= last_end {
                            assert(i == best);
                        }
                        vstd::seq_lib::lemma_seq_contains_after_push(prev, r, ranges[i]);
                    }
                }
                assert(new_ranges@.drop_last() == prev);
                if prev.len() > 0 {
                    assert(new_ranges@[prev.len() - 1] == prev[prev.len() - 1]);
                }
                assert forall|i: int| 0 <= i < new_ranges.len() - 1 implies (
                #[trigger] new_ranges@[i]).end_spec() == new_ranges@[i + 1].start by {
                    assert(new_ranges@[i] == prev[i]);
                }
                assert forall|v: int| 0 <= v < r.end_spec() implies lookup(new_ranges@, v)
                    == lookup(ranges@, v) by {
                    if v < last_end {
                        assert(lookup(new_ranges@, v) == lookup(prev, v));
                    }
                }
            }
            last_end = r.start + r.length;
        }
    }

    /// The range that holds `value`.
    pub fn range_for(&self, value: i64) -> (r: &Range)
        requires
            self.wf(),
            0 <= value < DOMAIN_END,
        ensures
            r.contains(value as int),
            r.valid(),
            self.ranges@.contains(*r),
            self.apply(value as int) == value + r.shift,
    {
        proof {
            lemma_chain_covers(self.ranges@, DOMAIN_END as int, value as int);
            lemma_chain_sorted(self.ranges@, DOMAIN_END as int);
        }
        let mut i: usize = 0;
        while i < self.ranges.len()
            invariant
                self.wf(),
                0 <= value < DOMAIN_END,
                exists|k: int| i <= k < self.ranges.len() && (#[trigger] self.ranges[k]).contains(
                    value as int,
                ),
            decreases self.ranges.len() - i,
        {
            let r = &self.ranges[i];
            if r.map_value(value).is_some() {
                proof {
                    lemma_chain_sorted(self.ranges@, DOMAIN_END as int);
                    lemma_lookup_hit(self.ranges@, i as int, value as int);
                    assert(self.ranges@[i as int] == *r);
                }
                return r;
            }
            i += 1;
        }
        proof {
            assert(false);
        }
        &self.ranges[0]
    }

    /// The map that sends `v` to `other.apply(self.apply(v))`, normalized.
    pub fn flatten(&self, other: &Day5Map) -> (m: Day5Map)
        requires
            self.wf(),
            other.wf(),
            self.to@ == other.from@,
        ensures
            m.wf(),
            m.from@ == self.from@,
            m.to@ == other.to@,
            composes(m, *self, *other),
    {
        proof {
            lemma_chain_sorted(self.ranges@, DOMAIN_END as int);
        }
        let mut new_ranges: Vec<Range> = Vec::new();
        let mut i: usize = 0;
        while i < self.ranges.len()
            invariant
                self.wf(),
                other.wf(),
                pairwise_apart(self.ranges@),
                i <= self.ranges.len(),
                chain(new_ranges@, if i == 0 { 0 } else { self.ranges[i - 1].end_spec() }),
                forall|v: int|
                    0 <= v < (if i == 0 { 0 } else { self.ranges[i - 1].end_spec() }) ==> lookup(
                        new_ranges@,
                        v,
                    ) == other.apply(self.apply(v)),
            decreases self.ranges.len() - i,
        {
            let range = self.ranges[i];
            assert(range.start == (if i == 0 { 0 } else { self.ranges[i - 1].end_spec() }));
            let mut pt: i64 = range.start;
            while pt < range.end()
                invariant
                    self.wf(),
                    other.wf(),
                    pairwise_apart(self.ranges@),
                    i < self.ranges.len(),
                    range == self.ranges[i as int],
                    range.start <= pt <= range.end_spec(),
                    chain(new_ranges@, pt as int),
                    forall|v: int|
                        0 <= v < pt ==> lookup(new_ranges@, v) == other.apply(self.apply(v)),
                decreases range.end_spec() - pt,
            {
                let mapped = pt + range.shift;
                let other_range = other.range_for(mapped);
                let shift = range.shift + other_range.shift;
                let a = range.end() - pt;
                let b = other_range.end() - mapped;
                let length = if a < b { a } else { b };
                let piece = Range { start: pt, length, shift };
                let ghost prev = new_ranges@;
                new_ranges.push(piece);
                proof {
                    assert(new_ranges@.drop_last() == prev);
                    if prev.len() > 0 {
                        assert(new_ranges@[prev.len() - 1] == prev[prev.len() - 1]);
                    }
                    assert forall|k: int| 0 <= k < new_ranges.len() - 1 implies (
                    #[trigger] new_ranges@[k]).end_spec() == new_ranges@[k + 1].start by {
                        assert(new_ranges@[k] == prev[k]);
                    }
                    let oi = choose|k: int|
                        0 <= k < other.ranges.len() && other.ranges@[k] == *other_range;
                    lemma_chain_sorted(other.ranges@, DOMAIN_END as int);
                    assert forall|v: int| 0 <= v < pt + length implies lookup(new_ranges@, v)
                        == other.apply(self.apply(v)) by {
                        if v < pt {
                            assert(lookup(new_ranges@, v) == lookup(prev, v));
                        } else {
                            lemma_lookup_hit(self.ranges@, i as int, v);
                            lemma_lookup_hit(other.ranges@, oi, v + range.shift);
                        }
                    }
                }
                pt = pt + length;
            }
            i += 1;
        }
        proof {
            lemma_chain_sorted(new_ranges@, DOMAIN_END as int);
        }
        Day5Map::new(self.from.clone(), other.to.clone(), new_ranges)
    }
}

/// `m` sends every value of the domain where `a` and then `b` send it.
pub open spec fn composes(m: Day5Map, a: Day5Map, b: Day5Map) -> bool {
    forall|v: int| 0 <= v < DOMAIN_END ==> #[trigger] m.apply(v) == b.apply(a.apply(v))
}

/// Where a well-formed map sends a value of the domain, and that the value stays in the domain.
pub proof fn lemma_apply_in_domain(m: Day5Map, v: int)
    requires
        m.wf(),
        0 <= v < DOMAIN_END,
    ensures
        exists|i: int|
            0 <= i < m.ranges.len() && (#[trigger] m.ranges@[i]).contains(v) && m.apply(v) == v
                + m.ranges@[i].shift,
        0 <= m.apply(v) < DOMAIN_END,
{
    lemma_chain_covers(m.ranges@, DOMAIN_END as int, v);
    lemma_chain_sorted(m.ranges@, DOMAIN_END as int);
    let i = choose|i: int| 0 <= i < m.ranges.len() && (#[trigger] m.ranges@[i]).contains(v);
    lemma_lookup_hit(m.ranges@, i, v);
}

/// A well-formed map has exactly one range holding each value of `[0, DOMAIN_END)`, and
/// looking a value up applies the shift of that range.
pub proof fn lemma_lookup_unique(m: Day5Map, v: int)
    requires
        m.wf(),
        0 <= v < DOMAIN_END,
    ensures
        exists|i: int| 0 <= i < m.ranges.len() && (#[trigger] m.ranges@[i]).contains(v),
        forall|i: int, j: int|
            0 <= i < m.ranges.len() && 0 <= j < m.ranges.len() && (#[trigger] m.ranges@[i]).contains(
                v,
            ) && (#[trigger] m.ranges@[j]).contains(v) ==> i == j,
        forall|i: int|
            0 <= i < m.ranges.len() && (#[trigger] m.ranges@[i]).contains(v) ==> m.apply(v) == v
                + m.ranges@[i].shift,
{
    lemma_chain_covers(m.ranges@, DOMAIN_END as int, v);
    lemma_chain_sorted(m.ranges@, DOMAIN_END as int);
    assert forall|i: int| 0 <= i < m.ranges.len() && (#[trigger] m.ranges@[i]).contains(v) implies m.apply(
        v,
    ) == v + m.ranges@[i].shift by {
        lemma_lookup_hit(m.ranges@, i, v);
    }
}

/// Flattening is associative in effect: `(a then b) then c` and `a then (b then c)` send every
/// value of the domain to the same place.
pub proof fn lemma_flatten_associative(
    a: Day5Map,
    b: Day5Map,
    c: Day5Map,
    ab: Day5Map,
    ab_c: Day5Map,
    bc: Day5Map,
    a_bc: Day5Map,
)
    requires
        a.wf(),
        b.wf(),
        c.wf(),
        ab.wf(),
        bc.wf(),
        composes(ab, a, b),
        composes(ab_c, ab, c),
        composes(bc, b, c),
        composes(a_bc, a, bc),
    ensures
        forall|v: int| 0 <= v < DOMAIN_END ==> #[trigger] ab_c.apply(v) == a_bc.apply(v),
{
    assert forall|v: int| 0 <= v < DOMAIN_END implies #[trigger] ab_c.apply(v) == a_bc.apply(v) by {
        lemma_apply_in_domain(a, v);
        assert(ab_c.apply(v) == c.apply(ab.apply(v)));
        assert(a_bc.apply(v) == bc.apply(a.apply(v)));
    }
}

/// Where the maps of `maps`, one after the other, send `v`.
pub open spec fn run(maps: Seq<Day5Map>, v: int) -> int
    decreases maps.len(),
{
    if maps.len() == 0 {
        v
    } else {
        maps.last().apply(run(maps.drop_last(), v))
    }
}

/// Each map of `maps` starts from `start` or from where the previous one ends.
pub open spec fn linked(maps: Seq<Day5Map>, start: Seq<char>) -> bool {
    &&& maps.len() > 0 ==> maps[0].from@ == start
    &&& forall|i: int| 0 <= i < maps.len() - 1 ==> (#[trigger] maps[i]).to@ == maps[i + 1].from@
}

/// Flattens the whole pipeline `maps`, which starts from the domain `start`, into one map.
/// `None` where a map does not start from where the previous one ends.
pub fn flatten_all(start: &String, maps: &Vec<Day5Map>) -> (r: Option<Day5Map>)
    requires
        forall|i: int| 0 <= i < maps.len() ==> (#[trigger] maps[i]).wf(),
    ensures
        r.is_some() <==> linked(maps@, start@),
        r matches Some(m) ==> {
            &&& m.wf()
            &&& m.from@ == start@
            &&& m.to@ == (if maps.len() == 0 { start@ } else { maps@.last().to@ })
            &&& forall|v: int| 0 <= v < DOMAIN_END ==> #[trigger] m.apply(v) == run(maps@, v)
        },
{
    let init = vec![Range::empty()];
    let ghost init_s = init@;
    let mut flat = Day5Map::new(start.clone(), start.clone(), init);
    proof {
        assert forall|v: int| 0 <= v < DOMAIN_END implies #[trigger] flat.apply(v) == run(
            maps@.take(0),
            v,
        ) by {
            assert(init_s.last().contains(v));
        }
    }
    let mut k: usize = 0;
    while k < maps.len()
        invariant
            k <= maps.len(),
            forall|i: int| 0 <= i < maps.len() ==> (#[trigger] maps[i]).wf(),
            flat.wf(),
            flat.from@ == start@,
            flat.to@ == (if k == 0 { start@ } else { maps[k - 1].to@ }),
            linked(maps@.take(k as int), start@),
            forall|v: int| 0 <= v < DOMAIN_END ==> #[trigger] flat.apply(v) == run(
                maps@.take(k as int),
                v,
            ),
        decreases maps.len() - k,
    {
        if flat.to != maps[k].from {
            proof {
                assert(!linked(maps@, start@)) by {
                    if k > 0 {
                        assert(maps@[k - 1].to@ == maps@[k as int].from@ ==> false);
                    }
                }
            }
            return None;
        }
        let next = flat.flatten(&maps[k]);
        proof {
            let t = maps@.take(k as int + 1);
            assert(t.drop_last() == maps@.take(k as int));
            assert forall|v: int| 0 <= v < DOMAIN_END implies #[trigger] next.apply(v) == run(t, v) by {
                assert(next.apply(v) == maps@[k as int].apply(flat.apply(v)));
            }
            assert forall|i: int| 0 <= i < t.len() - 1 implies (#[trigger] t[i]).to@ == t[i
                + 1].from@ by {
                if i < k - 1 {
                    assert(maps@.take(k as int)[i] == t[i]);
                    assert(maps@.take(k as int)[i + 1] == t[i + 1]);
                }
            }
        }
        flat = next;
        k += 1;
    }
    proof {
        assert(maps@.take(maps.len() as int) == maps@);
    }
    Some(flat)
}

/// Lowest value that `m` sends one of `seeds` to; `None` for no seeds.
pub fn lowest_location(m: &Day5Map, seeds: &Vec<i64>) -> (r: Option<i64>)
    requires
        m.wf(),
        forall|i: int| 0 <= i < seeds.len() ==> 0 <= #[trigger] seeds[i] < DOMAIN_END,
    ensures
        r.is_none() <==> seeds.len() == 0,
        r matches Some(x) ==> {
            &&& exists|i: int| 0 <= i < seeds.len() && x == m.apply(#[trigger] seeds[i] as int)
            &&& forall|i: int| 0 <= i < seeds.len() ==> x <= m.apply(#[trigger] seeds[i] as int)
        },
{
    let mut best: Option<i64> = None;
    let mut i: usize = 0;
    while i < seeds.len()
        invariant
            i <= seeds.len(),
            m.wf(),
            forall|j: int| 0 <= j < seeds.len() ==> 0 <= #[trigger] seeds[j] < DOMAIN_END,
            best.is_none() <==> i == 0,
            best matches Some(x) ==> {
                &&& exists|j: int| 0 <= j < i && x == m.apply(#[trigger] seeds[j] as int)
                &&& forall|j: int| 0 <= j < i ==> x <= m.apply(#[trigger] seeds[j] as int)
            },
        decreases seeds.len() - i,
    {
        let seed = seeds[i];
        let range = m.range_for(seed);
        let value = seed + range.shift;
        match best {
            Some(x) if x <= value => {},
            _ => {
                best = Some(value);
            },
        }
        i += 1;
    }
    best
}

/// `v` lies in the range given by the pair number `k` of `seeds`.
pub open spec fn in_pair(seeds: Seq<i64>, k: int, v: int) -> bool {
    seeds[2 * k] <= v < seeds[2 * k] + seeds[2 * k + 1]
}

/// `v` lies in one of the ranges given by the pairs `(start, length)` of `seeds`.
pub open spec fn in_seed_ranges(seeds: Seq<i64>, v: int) -> bool {
    exists|k: int| 0 <= k && 2 * k + 1 < seeds.len() && #[trigger] in_pair(seeds, k, v)
}

/// The pairs of `seeds` describe ranges inside the domain.
pub open spec fn seed_pairs_valid(seeds: Seq<i64>) -> bool {
    &&& seeds.len() % 2 == 0
    &&& forall|k: int|
        0 <= k && 2 * k + 1 < seeds.len() ==> 0 <= #[trigger] seeds[2 * k] && 0 <= seeds[2 * k + 1]
            && seeds[2 * k] + seeds[2 * k + 1] <= DOMAIN_END
}

/// Lowest value that `m` sends a value of the seed ranges to, where `seeds` holds pairs
/// `(start, length)`; `None` where every range is empty.  Each range of `m` is visited once,
/// at its first value in the seed range, where the lowest value of that stretch lies.
pub fn lowest_location_in_ranges(m: &Day5Map, seeds: &Vec<i64>) -> (r: Option<i64>)
    requires
        m.wf(),
        seed_pairs_valid(seeds@),
    ensures
        r.is_none() <==> !exists|v: int| in_seed_ranges(seeds@, v),
        r matches Some(x) ==> {
            &&& exists|v: int| in_seed_ranges(seeds@, v) && x == m.apply(v)
            &&& forall|v: int| in_seed_ranges(seeds@, v) ==> x <= m.apply(v)
        },
{
    let mut best: Option<i64> = None;
    let mut k: usize = 0;
    while k < seeds.len() / 2
        invariant
            k <= seeds.len() / 2,
            m.wf(),
            seed_pairs_valid(seeds@),
            best.is_none() ==> forall|q: int| 0 <= q < k ==> #[trigger] seeds[2 * q + 1] == 0,
            best matches Some(x) ==> {
                &&& exists|v: int| in_seed_ranges(seeds@, v) && x == m.apply(v)
                &&& forall|q: int, v: int|
                    0 <= q < k && #[trigger] in_pair(seeds@, q, v) ==> x <= m.apply(v)
            },
        decreases seeds.len() / 2 - k,
    {
        assert(2 * k + 1 < seeds.len());
        let first = seeds[2 * k];
        let end = first + seeds[2 * k + 1];
        let mut seed = first;
        while seed < end
            invariant
                k < seeds.len() / 2,
                m.wf(),
                seed_pairs_valid(seeds@),
                first == seeds[2 * k as int],
                end == seeds[2 * k as int] + seeds[2 * k + 1],
                0 <= first <= end <= DOMAIN_END,
                first <= seed <= DOMAIN_END,
                best.is_none() ==> seed == first && forall|q: int|
                    0 <= q < k ==> #[trigger] seeds[2 * q + 1] == 0,
                best matches Some(x) ==> {
                    &&& exists|v: int| in_seed_ranges(seeds@, v) && x == m.apply(v)
                    &&& forall|q: int, v: int|
                        0 <= q < k && #[trigger] in_pair(seeds@, q, v) ==> x <= m.apply(v)
                    &&& forall|v: int| first <= v < seed && v < end ==> x <= m.apply(v)
                },
            decreases DOMAIN_END - seed,
        {
            let range = m.range_for(seed);
            let value = seed + range.shift;
            match best {
                Some(x) if x <= value => {},
                _ => {
                    best = Some(value);
                },
            }
            proof {
                let oi = choose|i: int| 0 <= i < m.ranges.len() && m.ranges@[i] == *range;
                lemma_chain_sorted(m.ranges@, DOMAIN_END as int);
                assert(in_pair(seeds@, k as int, seed as int));
                assert(in_seed_ranges(seeds@, seed as int));
                assert forall|v: int| seed <= v < range.end_spec() && v < end implies best->Some_0
                    <= m.apply(v) by {
                    lemma_lookup_hit(m.ranges@, oi, v);
                }
            }
            seed = range.end();
        }
        proof {
            assert forall|q: int, v: int|
                0 <= q < k + 1 && #[trigger] in_pair(seeds@, q, v) implies (best matches Some(x)
                && x <= m.apply(v)) by {
            }
        }
        k += 1;
    }
    proof {
        if best.is_none() {
            assert forall|v: int| !in_seed_ranges(seeds@, v) by {
                if in_seed_ranges(seeds@, v) {
                    let q = choose|q: int|
                        0 <= q && 2 * q + 1 < seeds.len() && #[trigger] in_pair(seeds@, q, v);
                    assert(seeds[2 * q + 1] == 0);
                }
            }
        } else {
            assert forall|v: int| in_seed_ranges(seeds@, v) implies best->Some_0 <= m.apply(v) by {
                let q = choose|q: int|
                    0 <= q && 2 * q + 1 < seeds.len() && #[trigger] in_pair(seeds@, q, v);
                assert(in_pair(seeds@, q, v));
            }
        }
    }
    best
}

/// Whether no two non-empty ranges share a value.
pub fn ranges_apart(ranges: &Vec<Range>) -> (r: bool)
    ensures
        r == pairwise_apart(ranges@),
{
    let n = ranges.len();
    let mut i: usize = 0;
    while i < n
        invariant
            i <= n == ranges.len(),
            forall|p: int, q: int| 0 <= p < i && 0 <= q < n && p != q ==> apart(#[trigger] ranges@[p], #[trigger] ranges@[q]),
        decreases n - i,
    {
        let mut j: usize = 0;
        while j < n
            invariant
                i < n == ranges.len(),
                j <= n,
                forall|p: int, q: int| 0 <= p < i && 0 <= q < n && p != q ==> apart(#[trigger] ranges@[p], #[trigger] ranges@[q]),
                forall|q: int| 0 <= q < j && q != i ==> apart(ranges@[i as int], #[trigger] ranges@[q]),
            decreases n - j,
        {
            let a = ranges[i];
            let b = ranges[j];
            if i != j && a.length != 0 && b.length != 0 {
                let a_end = a.start as i128 + a.length as i128;
                let b_end = b.start as i128 + b.length as i128;
                if !(a_end <= b.start as i128 || b_end <= a.start as i128) {
                    assert(!apart(ranges@[i as int], ranges@[j as int]));
                    return false;
                }
            }
            j += 1;
        }
        i += 1;
    }
    true
}

pub open spec fn seeds_tag() -> Seq<u8> {
    seq![0x73u8, 0x65, 0x65, 0x64, 0x73, 0x3a]
}

/// Reads `seeds: <numbers>`; `None` where the line reads otherwise or a number is past the
/// domain.
pub fn parse_seeds(line: &[u8]) -> (r: Option<Vec<i64>>)
    ensures
        r matches Some(v) ==> has_at(line@, 0, seeds_tag()) && number_list(line@, 6).is_some() && v.len()
            == number_list(line@, 6)->Some_0.len() && forall|i: int|
            0 <= i < v.len() ==> #[trigger] v@[i] == number_list(line@, 6)->Some_0[i] as int,
{
    let tag: [u8; 6] = [0x73, 0x65, 0x65, 0x64, 0x73, 0x3a];
    assert(tag@ =~= seeds_tag());
    if !tag_at(line, 0, tag.as_slice()) {
        return None;
    }
    let ns = match parse_number_list(line, 6) {
        Some(v) => v,
        None => {
            return None;
        },
    };
    let mut out: Vec<i64> = Vec::new();
    let mut i: usize = 0;
    while i < ns.len()
        invariant
            i <= ns.len(),
            out.len() == i,
            forall|k: int| 0 <= k < i ==> #[trigger] out@[k] == ns@[k] as int,
        decreases ns.len() - i,
    {
        if ns[i] > DOMAIN_END as u64 {
            return None;
        }
        out.push(ns[i] as i64);
        i += 1;
    }
    Some(out)
}

/// Reads `<destination start> <source start> <length>` into the range that moves the source
/// values onto the destination ones; `None` where the line reads otherwise or either interval
/// leaves the domain.
pub fn parse_range(line: &[u8]) -> (r: Option<Range>)
    ensures
        r matches Some(range) ==> range.valid() && number_list(line@, 0).is_some() && number_list(line@, 0)->Some_0.len() == 3
            && range.start == number_list(line@, 0)->Some_0[1] && range.length == number_list(line@, 0)->Some_0[2]
            && range.shift == number_list(line@, 0)->Some_0[0] - number_list(line@, 0)->Some_0[1],
{
    let ns = match parse_number_list(line, 0) {
        Some(v) => v,
        None => {
            return None;
        },
    };
    if ns.len() != 3 {
        return None;
    }
    let dest = ns[0];
    let src = ns[1];
    let len = ns[2];
    if dest > DOMAIN_END as u64 || src > DOMAIN_END as u64 || len > DOMAIN_END as u64 - src || len
        > DOMAIN_END as u64 - dest {
        return None;
    }
    Some(Range { start: src as i64, length: len as i64, shift: dest as i64 - src as i64 })
}

/// Reads the range lines of one map and normalizes them; `None` where a line does not read or
/// two ranges overlap.
pub fn parse_map(from: String, to: String, lines: &Vec<Vec<u8>>) -> (r: Option<Day5Map>)
    ensures
        r matches Some(m) ==> m.wf() && m.from == from && m.to == to,
{
    let mut ranges: Vec<Range> = Vec::new();
    let mut i: usize = 0;
    while i < lines.len()
        invariant
            i <= lines.len(),
            forall|k: int| 0 <= k < ranges.len() ==> (#[trigger] ranges@[k]).valid(),
        decreases lines.len() - i,
    {
        match parse_range(lines[i].as_slice()) {
            Some(r) => {
                ranges.push(r);
            },
            None => {
                return None;
            },
        }
        i += 1;
    }
    if !ranges_apart(&ranges) {
        return None;
    }
    Some(Day5Map::new(from, to, ranges))
}

pub open spec fn to_tag() -> Seq<u8> {
    seq![0x2du8, 0x74, 0x6f, 0x2d]
}

pub open spec fn map_tag() -> Seq<u8> {
    seq![0x20u8, 0x6d, 0x61, 0x70, 0x3a]
}

/// Reads `<from>-to-<to> map:` and gives where the two names end: the first runs from 0 to
/// `a`, the second from `a + 4` to `b`.
pub fn parse_map_header(line: &[u8]) -> (r: Option<(usize, usize)>)
    ensures
        r matches Some((a, b)) ==> 0 < a && a + 4 < b && b + 5 == line@.len() && has_at(line@, a as int, to_tag())
            && has_at(line@, b as int, map_tag()),
{
    let mut a: usize = 0;
    while a < line.len() && line[a] != 0x2d
        invariant
            a <= line.len(),
        decreases line.len() - a,
    {
        a += 1;
    }
    let to: [u8; 4] = [0x2d, 0x74, 0x6f, 0x2d];
    assert(to@ =~= to_tag());
    if a == 0 || !tag_at(line, a, to.as_slice()) {
        return None;
    }
    let map: [u8; 5] = [0x20, 0x6d, 0x61, 0x70, 0x3a];
    assert(map@ =~= map_tag());
    if line.len() < 5 {
        return None;
    }
    let b = line.len() - 5;
    if b <= a + 4 || !tag_at(line, b, map.as_slice()) {
        return None;
    }
    Some((a, b))
}

} // verus!
