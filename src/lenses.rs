//! The lens library: the hash of a step and the boxes of lenses after every step.

use vstd::prelude::*;
use crate::text::copy_bytes;

verus! {

/// The hash of `s`: for each byte, add it, multiply by 17 and keep the remainder by 256.
pub open spec fn hash_spec(s: Seq<u8>) -> nat
    decreases s.len(),
{
    if s.len() == 0 {
        0
    } else {
        (((hash_spec(s.drop_last()) + s.last()) * 17) % 256) as nat
    }
}

/// The hash of `s`.
pub fn hash(s: &[u8]) -> (r: u8)
    ensures
        r == hash_spec(s@),
{
    let mut value: u32 = 0;
    let mut i: usize = 0;
    while i < s.len()
        invariant
            i <= s.len(),
            value == hash_spec(s@.take(i as int)),
            value < 256,
        decreases s.len() - i,
    {
        assert(s@.take(i + 1).drop_last() == s@.take(i as int));
        value = ((value + s[i] as u32) * 17) % 256;
        i += 1;
    }
    assert(s@.take(s.len() as int) == s@);
    value as u8
}

/// Sum of the hashes of the steps.
pub open spec fn hash_sum(steps: Seq<Seq<u8>>) -> nat
    decreases steps.len(),
{
    if steps.len() == 0 {
        0
    } else {
        hash_sum(steps.drop_last()) + hash_spec(steps.last())
    }
}

/// Sum of the hashes of the steps; every hash is below 256, so it fits for any number of steps
/// that a `Vec` can hold up to `2^56`.
pub fn hash_total(steps: &Vec<Vec<u8>>) -> (r: u64)
    requires
        steps.len() <= 0x100_0000_0000_0000,
    ensures
        r == hash_sum(steps@.map_values(|v: Vec<u8>| v@)),
{
    let ghost m = steps@.map_values(|v: Vec<u8>| v@);
    let mut total: u64 = 0;
    let mut i: usize = 0;
    while i < steps.len()
        invariant
            i <= steps.len() <= 0x100_0000_0000_0000,
            m == steps@.map_values(|v: Vec<u8>| v@),
            total == hash_sum(m.take(i as int)),
            total <= 255 * i,
        decreases steps.len() - i,
    {
        assert(m.take(i + 1).drop_last() == m.take(i as int));
        assert(m[i as int] == steps@[i as int]@);
        let h = hash(steps[i].as_slice());
        total = total + h as u64;
        i += 1;
    }
    assert(m.take(steps.len() as int) == m);
    total
}

/// One step of the initialization sequence.
#[derive(Debug, Clone, PartialEq, Eq)]
pub enum Operation {
    Insert(Vec<u8>, u64),
    Remove(Vec<u8>),
}

pub open spec fn is_letter(b: u8) -> bool {
    (0x41 <= b <= 0x5a) || (0x61 <= b <= 0x7a)
}

pub open spec fn all_digits(s: Seq<u8>) -> bool {
    forall|i: int| 0 <= i < s.len() ==> crate::text::is_digit(#[trigger] s[i])
}

/// Where the run of letters at the start of `s` ends.
pub open spec fn letters_end(s: Seq<u8>, i: int) -> int
    decreases s.len() - i,
{
    if i < 0 || i >= s.len() || !is_letter(s[i]) {
        i
    } else {
        letters_end(s, i + 1)
    }
}

/// A step reads as a label of letters, then `=` and a number, or `-` and possibly digits.
pub open spec fn operation_spec(s: Seq<u8>) -> Option<(Seq<u8>, Option<u64>)> {
    let e = letters_end(s, 0);
    if e == 0 || e >= s.len() {
        None
    } else {
        let rest = s.subrange(e + 1, s.len() as int);
        if !all_digits(rest) {
            None
        } else if s[e] == 0x3d {
            if rest.len() > 0 && crate::text::digits_value(rest) <= u64::MAX {
                Some((s.subrange(0, e), Some(crate::text::digits_value(rest) as u64)))
            } else {
                None
            }
        } else if s[e] == 0x2d {
            Some((s.subrange(0, e), None))
        } else {
            None
        }
    }
}

pub open spec fn op_view(op: Operation) -> (Seq<u8>, Option<u64>) {
    match op {
        Operation::Insert(l, v) => (l@, Some(v)),
        Operation::Remove(l) => (l@, None),
    }
}

/// Reads one step.
pub fn parse_operation(s: &[u8]) -> (r: Option<Operation>)
    ensures
        r matches Some(op) ==> operation_spec(s@) == Some(op_view(op)),
        r.is_none() ==> operation_spec(s@).is_none(),
{
    let mut e: usize = 0;
    while e < s.len() && ((0x41 <= s[e] && s[e] <= 0x5a) || (0x61 <= s[e] && s[e] <= 0x7a))
        invariant
            e <= s.len(),
            letters_end(s@, 0) == letters_end(s@, e as int),
        decreases s.len() - e,
    {
        e += 1;
    }
    assert(letters_end(s@, e as int) == e);
    if e == 0 || e >= s.len() {
        return None;
    }
    let mut label: Vec<u8> = Vec::new();
    let mut k: usize = 0;
    while k < e
        invariant
            k <= e < s.len(),
            label@ == s@.subrange(0, k as int),
        decreases e - k,
    {
        label.push(s[k]);
        k += 1;
        assert(label@ =~= s@.subrange(0, k as int));
    }
    let ghost rest = s@.subrange(e + 1, s@.len() as int);
    let mut j = e + 1;
    while j < s.len()
        invariant
            0 < e < j <= s.len(),
            letters_end(s@, 0) == e,
            rest == s@.subrange(e + 1, s@.len() as int),
            forall|q: int| e + 1 <= q < j ==> crate::text::is_digit(#[trigger] s@[q]),
        decreases s.len() - j,
    {
        if !(0x30 <= s[j] && s[j] <= 0x39) {
            assert(rest[j - e - 1] == s@[j as int]);
            assert(!crate::text::is_digit(rest[j - e - 1]));
            return None;
        }
        j += 1;
    }
    assert(all_digits(rest)) by {
        assert forall|q: int| 0 <= q < rest.len() implies crate::text::is_digit(#[trigger] rest[q]) by {
            assert(rest[q] == s@[e + 1 + q]);
        }
    }
    if s[e] == 0x3d {
        if e + 1 == s.len() {
            return None;
        }
        match crate::text::parse_number(s, e + 1) {
            Some((v, end)) => {
                proof {
                    crate::text::lemma_digits_end(s@, e + 1);
                    if end < s.len() {
                        assert(crate::text::is_digit(s@[end as int]));
                    }
                    assert(s@.subrange(e + 1, end as int) == rest);
                }
                Some(Operation::Insert(label, v))
            },
            None => {
                proof {
                    crate::text::lemma_digits_end(s@, e + 1);
                    let de = crate::text::digits_end(s@, e + 1);
                    if de < s.len() {
                        assert(crate::text::is_digit(s@[de]));
                    }
                    assert(s@.subrange(e + 1, de) == rest);
                }
                None
            },
        }
    } else if s[e] == 0x2d {
        Some(Operation::Remove(label))
    } else {
        None
    }
}

/// A lens: its label and focal length.
pub type Lens = (Vec<u8>, u64);

pub open spec fn lens_view(l: Lens) -> (Seq<u8>, u64) {
    (l.0@, l.1)
}

pub open spec fn box_view(b: Vec<Lens>) -> Seq<(Seq<u8>, u64)> {
    b@.map_values(|l: Lens| lens_view(l))
}

/// Index of the first lens labelled `label`, if any.
pub open spec fn find_label(b: Seq<(Seq<u8>, u64)>, label: Seq<u8>) -> Option<int>
    decreases b.len(),
{
    if b.len() == 0 {
        None
    } else {
        match find_label(b.drop_last(), label) {
            Some(i) => Some(i),
            None => if b.last().0 == label {
                Some(b.len() - 1)
            } else {
                None
            },
        }
    }
}

/// The box after putting in a lens: it replaces the lens of the same label, or goes at the end.
pub open spec fn insert_spec(b: Seq<(Seq<u8>, u64)>, label: Seq<u8>, v: u64) -> Seq<(Seq<u8>, u64)> {
    match find_label(b, label) {
        Some(i) => b.update(i, (label, v)),
        None => b.push((label, v)),
    }
}

/// The box without the lenses labelled `label`, the others kept in order.
pub open spec fn remove_spec(b: Seq<(Seq<u8>, u64)>, label: Seq<u8>) -> Seq<(Seq<u8>, u64)>
    decreases b.len(),
{
    if b.len() == 0 {
        b
    } else if b.last().0 == label {
        remove_spec(b.drop_last(), label)
    } else {
        remove_spec(b.drop_last(), label).push(b.last())
    }
}

fn same_bytes(a: &Vec<u8>, b: &Vec<u8>) -> (r: bool)
    ensures
        r == (a@ == b@),
{
    if a.len() != b.len() {
        return false;
    }
    let mut i: usize = 0;
    while i < a.len()
        invariant
            a.len() == b.len(),
            i <= a.len(),
            forall|k: int| 0 <= k < i ==> a@[k] == b@[k],
        decreases a.len() - i,
    {
        if a[i] != b[i] {
            return false;
        }
        i += 1;
    }
    assert(a@ =~= b@);
    true
}

/// Applies one step to the 256 boxes.
pub fn apply_operation(boxes: &mut Vec<Vec<Lens>>, op: &Operation)
    requires
        old(boxes).len() == 256,
    ensures
        final(boxes).len() == 256,
        ({
            let (label, v) = op_view(*op);
            let h = hash_spec(label) as int;
            forall|i: int| 0 <= i < 256 ==> #[trigger] box_view(final(boxes)@[i]) == if i != h {
                box_view(old(boxes)@[i])
            } else {
                match v {
                    Some(x) => insert_spec(box_view(old(boxes)@[i]), label, x),
                    None => remove_spec(box_view(old(boxes)@[i]), label),
                }
            }
        }),
{
    let ghost b0 = boxes@;
    match op {
        Operation::Insert(label, value) => {
            let h = hash(label.as_slice()) as usize;
            assert(hash_spec(label@) < 256) by {
                assert(hash_spec(label@) == h);
            }
            let mut k: usize = 0;
            let ghost bv = box_view(boxes@[h as int]);
            while k < boxes[h].len()
                invariant
                    boxes@ == b0,
                    b0 == old(boxes)@,
                    op_view(*op) == (label@, Some(*value)),
                    h == hash_spec(label@),
                    boxes.len() == 256,
                    h < 256,
                    bv == box_view(boxes@[h as int]),
                    k <= bv.len(),
                    find_label(bv.take(k as int), label@).is_none(),
                decreases bv.len() - k,
            {
                assert(bv.take(k + 1).drop_last() == bv.take(k as int));
                assert(bv[k as int] == lens_view(boxes@[h as int]@[k as int]));
                if same_bytes(&boxes[h][k].0, label) {
                    proof {
                        assert(bv.take(k + 1).last() == bv[k as int]);
                        assert(bv[k as int].0 == label@);
                        assert(find_label(bv.take(k + 1), label@) == Some(k as int));
                        lemma_find_prefix(bv, label@, k + 1);
                    }
                    boxes[h][k] = (copy_bytes(label), *value);
                    proof {
                        assert(box_view(boxes@[h as int]) =~= bv.update(k as int, (label@, *value)));
                        assert(find_label(bv, label@) == Some(k as int));
                        assert forall|i: int| 0 <= i < 256 && i != h implies #[trigger] box_view(boxes@[i])
                            == box_view(b0[i]) by {
                            assert(boxes@[i] == b0[i]);
                        }
                    }
                    return;
                }
                k += 1;
            }
            assert(bv.take(bv.len() as int) == bv);
            boxes[h].push((copy_bytes(label), *value));
            proof {
                assert(box_view(boxes@[h as int]) =~= bv.push((label@, *value)));
            }
        },
        Operation::Remove(label) => {
            let h = hash(label.as_slice()) as usize;
            let ghost bv = box_view(boxes@[h as int]);
            let mut kept: Vec<Lens> = Vec::new();
            let mut k: usize = 0;
            while k < boxes[h].len()
                invariant
                    boxes@ == b0,
                    boxes.len() == 256,
                    h < 256,
                    bv == box_view(boxes@[h as int]),
                    k <= bv.len(),
                    box_view(kept) == remove_spec(bv.take(k as int), label@),
                decreases bv.len() - k,
            {
                assert(bv.take(k + 1).drop_last() == bv.take(k as int));
                assert(bv[k as int] == lens_view(boxes@[h as int]@[k as int]));
                if !same_bytes(&boxes[h][k].0, label) {
                    let l = (copy_bytes(&boxes[h][k].0), boxes[h][k].1);
                    kept.push(l);
                    proof {
                        assert(box_view(kept) =~= remove_spec(bv.take(k as int), label@).push(bv[k as int]));
                    }
                }
                k += 1;
            }
            assert(bv.take(bv.len() as int) == bv);
            boxes[h] = kept;
        },
    }
}

/// The first lens labelled `label` among the first `k` is the first one in the whole box.
pub proof fn lemma_find_prefix(b: Seq<(Seq<u8>, u64)>, label: Seq<u8>, k: int)
    requires
        0 <= k <= b.len(),
        find_label(b.take(k), label).is_some(),
    ensures
        find_label(b, label) == find_label(b.take(k), label),
    decreases b.len() - k,
{
    if k < b.len() {
        assert(b.take(k + 1).drop_last() == b.take(k));
        lemma_find_prefix(b, label, k + 1);
    } else {
        assert(b.take(k) == b);
    }
}

/// Focusing power of one box numbered `n` (from one), summed from its lens `k` (from one) on.
pub open spec fn box_power(b: Seq<(Seq<u8>, u64)>, n: nat) -> nat
    decreases b.len(),
{
    if b.len() == 0 {
        0
    } else {
        box_power(b.drop_last(), n) + n * b.len() * (b.last().1 as nat)
    }
}

pub open spec fn boxes_power(bs: Seq<Seq<(Seq<u8>, u64)>>) -> nat
    decreases bs.len(),
{
    if bs.len() == 0 {
        0
    } else {
        boxes_power(bs.drop_last()) + box_power(bs.last(), bs.len())
    }
}

pub proof fn lemma_box_prefix(b: Seq<(Seq<u8>, u64)>, n: nat, k: int)
    requires
        0 <= k <= b.len(),
    ensures
        box_power(b.take(k), n) <= box_power(b, n),
    decreases b.len() - k,
{
    if k < b.len() {
        assert(b.take(k + 1).drop_last() == b.take(k));
        lemma_box_prefix(b, n, k + 1);
    } else {
        assert(b.take(k) == b);
    }
}

pub proof fn lemma_boxes_prefix(bs: Seq<Seq<(Seq<u8>, u64)>>, k: int)
    requires
        0 <= k <= bs.len(),
    ensures
        boxes_power(bs.take(k)) <= boxes_power(bs),
    decreases bs.len() - k,
{
    if k < bs.len() {
        assert(bs.take(k + 1).drop_last() == bs.take(k));
        lemma_boxes_prefix(bs, k + 1);
    } else {
        assert(bs.take(k) == bs);
    }
}

/// Sum over the lenses of box number times slot number times focal length, both numbered
/// from one; `None` when it does not fit in 64 bits.
pub fn focusing_power(boxes: &Vec<Vec<Lens>>) -> (r: Option<u64>)
    ensures
        r matches Some(p) ==> p == boxes_power(boxes@.map_values(|b: Vec<Lens>| box_view(b))),
        r.is_none() ==> boxes_power(boxes@.map_values(|b: Vec<Lens>| box_view(b))) > u64::MAX,
{
    let ghost bs = boxes@.map_values(|b: Vec<Lens>| box_view(b));
    let mut total: u64 = 0;
    let mut i: usize = 0;
    while i < boxes.len()
        invariant
            i <= boxes.len(),
            bs == boxes@.map_values(|b: Vec<Lens>| box_view(b)),
            total == boxes_power(bs.take(i as int)),
        decreases boxes.len() - i,
    {
        assert(bs.take(i + 1).drop_last() == bs.take(i as int));
        let ghost b = bs[i as int];
        assert(b == box_view(boxes@[i as int]));
        let ghost base = total as nat;
        let mut k: usize = 0;
        while k < boxes[i].len()
            invariant
                i < boxes.len(),
                bs == boxes@.map_values(|b: Vec<Lens>| box_view(b)),
                b == bs[i as int],
                b == box_view(boxes@[i as int]),
                base == boxes_power(bs.take(i as int)),
                k <= b.len(),
                total == base + box_power(b.take(k as int), (i + 1) as nat),
            decreases b.len() - k,
        {
            assert(b.take(k + 1).drop_last() == b.take(k as int));
            assert(b[k as int].1 == boxes@[i as int]@[k as int].1);
            let value = boxes[i][k].1 as u128;
            let ghost exact: int = (i + 1) * (k + 1) * value;
            assert(exact >= 0) by (nonlinear_arith)
                requires
                    exact == (i + 1) * (k + 1) * value,
                    value >= 0,
            ;
            let term = if value == 0 {
                assert(exact == 0) by (nonlinear_arith)
                    requires
                        exact == (i + 1) * (k + 1) * value,
                        value == 0,
                ;
                Some(0u128)
            } else {
                match (i as u128 + 1).checked_mul(k as u128 + 1) {
                    Some(place) => place.checked_mul(value),
                    None => {
                        assert(exact >= (i + 1) * (k + 1)) by (nonlinear_arith)
                            requires
                                exact == (i + 1) * (k + 1) * value,
                                value >= 1,
                        ;
                        None
                    },
                }
            };
            assert(term matches Some(t) ==> t == exact);
            assert(term.is_none() ==> exact > u128::MAX);
            let next = match term {
                Some(t) => match (total as u128).checked_add(t) {
                    Some(x) => x,
                    None => u128::MAX,
                },
                None => u128::MAX,
            };
            assert(next <= u64::MAX ==> next == total + exact);
            assert(next > u64::MAX ==> total + exact > u64::MAX);
            assert(box_power(b.take(k + 1), (i + 1) as nat) == box_power(b.take(k as int), (i + 1) as nat) + exact);
            if next > u64::MAX as u128 {
                proof {
                    lemma_box_prefix(b, (i + 1) as nat, k + 1);
                    lemma_boxes_prefix(bs, i + 1);
                    assert(bs.take(i + 1).drop_last() == bs.take(i as int));
                    assert(bs.take(i + 1).len() == i + 1);
                    assert(bs.take(i + 1).last() == b);
                    assert(boxes_power(bs.take(i + 1)) == base + box_power(b, (i + 1) as nat));
                }
                return None;
            }
            total = next as u64;
            k += 1;
        }
        assert(b.take(b.len() as int) == b);
        i += 1;
    }
    assert(bs.take(boxes.len() as int) == bs);
    Some(total)
}

/// The boxes after one step.
pub open spec fn step_spec(bs: Seq<Seq<(Seq<u8>, u64)>>, op: (Seq<u8>, Option<u64>)) -> Seq<Seq<(Seq<u8>, u64)>> {
    let h = hash_spec(op.0) as int;
    bs.update(
        h,
        match op.1 {
            Some(v) => insert_spec(bs[h], op.0, v),
            None => remove_spec(bs[h], op.0),
        },
    )
}

/// 256 empty boxes.
pub open spec fn empty_boxes() -> Seq<Seq<(Seq<u8>, u64)>> {
    Seq::new(256, |i: int| Seq::<(Seq<u8>, u64)>::empty())
}

/// The boxes after the steps `ts`, starting from 256 empty boxes; `None` where a step does not
/// read.
pub open spec fn boxes_after(ts: Seq<Seq<u8>>) -> Option<Seq<Seq<(Seq<u8>, u64)>>>
    decreases ts.len(),
{
    if ts.len() == 0 {
        Some(empty_boxes())
    } else {
        match (boxes_after(ts.drop_last()), operation_spec(ts.last())) {
            (Some(bs), Some(op)) => Some(step_spec(bs, op)),
            _ => None,
        }
    }
}

pub proof fn lemma_boxes_none(ts: Seq<Seq<u8>>, k: int)
    requires
        0 <= k <= ts.len(),
        boxes_after(ts.take(k)).is_none(),
    ensures
        boxes_after(ts).is_none(),
    decreases ts.len() - k,
{
    if k < ts.len() {
        assert(ts.take(k + 1).drop_last() == ts.take(k));
        lemma_boxes_none(ts, k + 1);
    } else {
        assert(ts.take(k) == ts);
    }
}

/// `s` without its trailing line breaks.
pub open spec fn without_line_end(s: Seq<u8>) -> Seq<u8>
    decreases s.len(),
{
    if s.len() > 0 && (s.last() == 0x0a || s.last() == 0x0d) {
        without_line_end(s.drop_last())
    } else {
        s
    }
}

/// Both answers for the initialization sequence of `input`, steps separated by commas: the sum
/// of the hashes of the steps, and the focusing power once every step has been applied.
/// `None` where a step does not read or the power does not fit in 64 bits.
pub fn solve(input: &[u8]) -> (r: Option<(u64, u64)>)
    ensures
        r matches Some((a, b)) ==> a == hash_sum(crate::text::split_on(without_line_end(input@), 0x2c))
            && boxes_after(crate::text::split_on(without_line_end(input@), 0x2c)).is_some() && b
            == boxes_power(boxes_after(crate::text::split_on(without_line_end(input@), 0x2c))->Some_0),
        r.is_some() <==> crate::text::split_on(without_line_end(input@), 0x2c).len()
            <= 0x100_0000_0000_0000 && (boxes_after(crate::text::split_on(without_line_end(input@), 0x2c))
            matches Some(bs) && boxes_power(bs) <= u64::MAX),
{
    let mut end = input.len();
    assert(input@.take(input.len() as int) =~= input@);
    while end > 0 && (input[end - 1] == 0x0a || input[end - 1] == 0x0d)
        invariant
            end <= input.len(),
            without_line_end(input@) == without_line_end(input@.take(end as int)),
        decreases end,
    {
        assert(input@.take(end - 1) == input@.take(end as int).drop_last());
        end -= 1;
    }
    let mut text: Vec<u8> = Vec::new();
    let mut k: usize = 0;
    while k < end
        invariant
            k <= end <= input.len(),
            text@ == input@.take(k as int),
        decreases end - k,
    {
        text.push(input[k]);
        k += 1;
        assert(text@ =~= input@.take(k as int));
    }
    assert(without_line_end(input@.take(end as int)) == input@.take(end as int));
    let steps = crate::text::split(text.as_slice(), 0x2c);
    let ghost ts = steps@.map_values(|v: Vec<u8>| v@);
    assert(text@ == without_line_end(input@));
    assert(ts == crate::text::split_on(without_line_end(input@), 0x2c));
    if steps.len() as u64 > 0x100_0000_0000_0000u64 {
        return None;
    }
    let a = hash_total(&steps);
    let mut boxes: Vec<Vec<Lens>> = Vec::new();
    let mut i: usize = 0;
    while i < 256
        invariant
            i <= 256,
            boxes.len() == i,
            forall|q: int| 0 <= q < i ==> (#[trigger] boxes@[q])@.len() == 0,
        decreases 256 - i,
    {
        boxes.push(Vec::new());
        i += 1;
    }
    proof {
        let start = boxes@.map_values(|b: Vec<Lens>| box_view(b));
        assert forall|q: int| 0 <= q < 256 implies #[trigger] start[q] =~= empty_boxes()[q] by {
            assert(start[q] == box_view(boxes@[q]));
        }
        assert(start =~= empty_boxes());
        assert(ts.take(0) =~= Seq::<Seq<u8>>::empty());
    }
    let mut j: usize = 0;
    while j < steps.len()
        invariant
            j <= steps.len(),
            boxes.len() == 256,
            ts == steps@.map_values(|v: Vec<u8>| v@),
            boxes_after(ts.take(j as int)) == Some(boxes@.map_values(|b: Vec<Lens>| box_view(b))),
            ts == crate::text::split_on(without_line_end(input@), 0x2c),
            steps.len() <= 0x100_0000_0000_0000,
        decreases steps.len() - j,
    {
        assert(ts.take(j + 1).drop_last() == ts.take(j as int));
        assert(ts.take(j + 1).last() == steps@[j as int]@);
        let op = match parse_operation(steps[j].as_slice()) {
            Some(op) => op,
            None => {
                proof {
                    lemma_boxes_none(ts, j + 1);
                }
                return None;
            },
        };
        let ghost before = boxes@.map_values(|b: Vec<Lens>| box_view(b));
        apply_operation(&mut boxes, &op);
        proof {
            let after = boxes@.map_values(|b: Vec<Lens>| box_view(b));
            assert(after =~= step_spec(before, op_view(op))) by {
                assert forall|q: int| 0 <= q < 256 implies #[trigger] after[q] == step_spec(before, op_view(op))[q] by {
                    assert(after[q] == box_view(boxes@[q]));
                }
            }
        }
        j += 1;
    }
    assert(ts.take(steps.len() as int) == ts);
    let b = match focusing_power(&boxes) {
        Some(b) => b,
        None => {
            return None;
        },
    };
    Some((a, b))
}

} // verus!
