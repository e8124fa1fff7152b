//! Lines, numbers and tokens of puzzle text.

use vstd::prelude::*;

verus! {

pub const NEWLINE: u8 = 0x0a;

/// `s` cut at every `sep`; there is always at least one piece.
pub open spec fn split_on(s: Seq<u8>, sep: u8) -> Seq<Seq<u8>>
    decreases s.len(),
{
    if s.len() == 0 {
        seq![Seq::<u8>::empty()]
    } else {
        let p = split_on(s.drop_last(), sep);
        if s.last() == sep {
            p.push(Seq::<u8>::empty())
        } else {
            p.update(p.len() - 1, p.last().push(s.last()))
        }
    }
}

pub proof fn lemma_split_nonempty(s: Seq<u8>, sep: u8)
    ensures
        split_on(s, sep).len() >= 1,
    decreases s.len(),
{
    if s.len() > 0 {
        lemma_split_nonempty(s.drop_last(), sep);
    }
}

pub const CARRIAGE_RETURN: u8 = 0x0d;

/// `l` without a carriage return at its end.
pub open spec fn strip_cr(l: Seq<u8>) -> Seq<u8> {
    if l.len() > 0 && l.last() == CARRIAGE_RETURN {
        l.drop_last()
    } else {
        l
    }
}

/// The lines of `s`: cut at each newline, a carriage return just before a newline dropped,
/// and without the empty piece after a final newline.
pub open spec fn lines_of(s: Seq<u8>) -> Seq<Seq<u8>> {
    let p = split_on(s, NEWLINE);
    let ended = Seq::new((p.len() - 1) as nat, |i: int| strip_cr(p[i]));
    if p.last().len() == 0 {
        ended
    } else {
        ended.push(p.last())
    }
}

/// The pieces of `s` between the separators `sep`.
pub fn split(s: &[u8], sep: u8) -> (r: Vec<Vec<u8>>)
    ensures
        r@.map_values(|v: Vec<u8>| v@) == split_on(s@, sep),
{
    let mut out: Vec<Vec<u8>> = Vec::new();
    let mut cur: Vec<u8> = Vec::new();
    let mut i: usize = 0;
    while i < s.len()
        invariant
            i <= s.len(),
            out@.map_values(|v: Vec<u8>| v@).push(cur@) == split_on(s@.take(i as int), sep),
        decreases s.len() - i,
    {
        let ghost before = out@.map_values(|v: Vec<u8>| v@).push(cur@);
        assert(s@.take(i + 1).drop_last() == s@.take(i as int));
        if s[i] == sep {
            out.push(cur);
            cur = Vec::new();
            assert(out@.map_values(|v: Vec<u8>| v@).push(cur@) =~= before.push(Seq::<u8>::empty()));
        } else {
            cur.push(s[i]);
            assert(out@.map_values(|v: Vec<u8>| v@).push(cur@) =~= before.update(
                before.len() - 1,
                before.last().push(s@[i as int]),
            ));
        }
        i += 1;
    }
    assert(s@.take(s.len() as int) == s@);
    out.push(cur);
    assert(out@.map_values(|v: Vec<u8>| v@) =~= split_on(s@, sep));
    out
}

/// The lines of `s`.
pub fn lines(s: &[u8]) -> (r: Vec<Vec<u8>>)
    ensures
        r@.map_values(|v: Vec<u8>| v@) == lines_of(s@),
{
    let pieces = split(s, NEWLINE);
    let ghost p = split_on(s@, NEWLINE);
    proof {
        lemma_split_nonempty(s@, NEWLINE);
    }
    let n = pieces.len();
    let mut out: Vec<Vec<u8>> = Vec::new();
    let mut i: usize = 0;
    while i + 1 < n
        invariant
            n == pieces.len(),
            n >= 1,
            p == pieces@.map_values(|v: Vec<u8>| v@),
            i + 1 <= n,
            out.len() == i,
            forall|k: int| 0 <= k < i ==> (#[trigger] out@[k])@ == strip_cr(p[k]),
        decreases n - i,
    {
        let mut line = copy_bytes(&pieces[i]);
        assert(line@ == p[i as int]);
        if line.len() > 0 && line[line.len() - 1] == CARRIAGE_RETURN {
            line.pop();
        }
        out.push(line);
        i += 1;
    }
    let ghost ended = Seq::new((p.len() - 1) as nat, |k: int| strip_cr(p[k]));
    assert(out@.map_values(|v: Vec<u8>| v@) =~= ended);
    assert(p[n - 1] == pieces@[n - 1]@);
    if pieces[n - 1].len() > 0 {
        let ghost before = out@.map_values(|v: Vec<u8>| v@);
        out.push(copy_bytes(&pieces[n - 1]));
        assert(out@.map_values(|v: Vec<u8>| v@) =~= before.push(p.last()));
    }
    out
}

pub open spec fn is_digit(b: u8) -> bool {
    0x30 <= b <= 0x39
}

/// The number written by the decimal digits `d`.
pub open spec fn digits_value(d: Seq<u8>) -> nat
    decreases d.len(),
{
    if d.len() == 0 {
        0
    } else {
        digits_value(d.drop_last()) * 10 + (d.last() - 0x30) as nat
    }
}

/// Where the run of digits that starts at `pos` ends.
pub open spec fn digits_end(s: Seq<u8>, pos: int) -> int
    decreases s.len() - pos,
{
    if pos < 0 || pos >= s.len() || !is_digit(s[pos]) {
        pos
    } else {
        digits_end(s, pos + 1)
    }
}

pub proof fn lemma_digits_end(s: Seq<u8>, pos: int)
    requires
        0 <= pos <= s.len(),
    ensures
        pos <= digits_end(s, pos) <= s.len(),
        forall|k: int| pos <= k < digits_end(s, pos) ==> is_digit(#[trigger] s[k]),
        digits_end(s, pos) < s.len() ==> !is_digit(s[digits_end(s, pos)]),
    decreases s.len() - pos,
{
    if pos < s.len() && is_digit(s[pos]) {
        lemma_digits_end(s, pos + 1);
    }
}

/// The number whose digits start at `pos`, and where they end; `None` when there is no digit
/// at `pos` or the number does not fit in 64 bits.
pub fn parse_number(s: &[u8], pos: usize) -> (r: Option<(u64, usize)>)
    requires
        pos <= s.len(),
    ensures
        r.is_some() <==> pos < digits_end(s@, pos as int) && digits_value(
            s@.subrange(pos as int, digits_end(s@, pos as int)),
        ) <= u64::MAX,
        r matches Some((v, e)) ==> e == digits_end(s@, pos as int) && v == digits_value(
            s@.subrange(pos as int, e as int),
        ),
{
    proof {
        lemma_digits_end(s@, pos as int);
    }
    let ghost end = digits_end(s@, pos as int);
    let mut i = pos;
    let mut v: u64 = 0;
    let mut overflow = false;
    while i < s.len() && 0x30 <= s[i] && s[i] <= 0x39
        invariant
            pos <= i <= end,
            end == digits_end(s@, pos as int),
            pos <= end <= s.len(),
            forall|k: int| pos <= k < end ==> is_digit(#[trigger] s@[k]),
            end < s.len() ==> !is_digit(s@[end]),
            !overflow ==> v == digits_value(s@.subrange(pos as int, i as int)),
            overflow ==> digits_value(s@.subrange(pos as int, i as int)) > u64::MAX,
        decreases s.len() - i,
    {
        let ghost prev = digits_value(s@.subrange(pos as int, i as int));
        assert(s@.subrange(pos as int, i + 1).drop_last() == s@.subrange(pos as int, i as int));
        let d = (s[i] - 0x30) as u64;
        if !overflow {
            match v.checked_mul(10) {
                Some(t) => match t.checked_add(d) {
                    Some(u) => {
                        v = u;
                    },
                    None => {
                        overflow = true;
                    },
                },
                None => {
                    overflow = true;
                },
            }
        } else {
            assert(prev * 10 >= prev) by (nonlinear_arith)
                requires
                    prev >= 0,
            ;
        }
        i += 1;
    }
    if i == pos || overflow {
        return None;
    }
    Some((v, i))
}

/// Index just past the spaces that start at `pos`.
pub open spec fn spaces_end(s: Seq<u8>, pos: int) -> int
    decreases s.len() - pos,
{
    if pos < 0 || pos >= s.len() || s[pos] != 0x20 {
        pos
    } else {
        spaces_end(s, pos + 1)
    }
}

pub fn skip_spaces(s: &[u8], pos: usize) -> (r: usize)
    requires
        pos <= s.len(),
    ensures
        r == spaces_end(s@, pos as int),
        pos <= r <= s.len(),
{
    let mut i = pos;
    while i < s.len() && s[i] == 0x20
        invariant
            pos <= i <= s.len(),
            spaces_end(s@, pos as int) == spaces_end(s@, i as int),
        decreases s.len() - i,
    {
        i += 1;
    }
    i
}

/// `s` holds the bytes `w` at `pos`.
pub open spec fn has_at(s: Seq<u8>, pos: int, w: Seq<u8>) -> bool {
    0 <= pos && pos + w.len() <= s.len() && s.subrange(pos, pos + w.len()) == w
}

pub fn tag_at(s: &[u8], pos: usize, w: &[u8]) -> (r: bool)
    ensures
        r == has_at(s@, pos as int, w@),
{
    if pos > s.len() || w.len() > s.len() - pos {
        return false;
    }
    let mut k: usize = 0;
    while k < w.len()
        invariant
            pos + w.len() <= s.len(),
            k <= w.len(),
            forall|j: int| 0 <= j < k ==> s@[pos + j] == w@[j],
        decreases w.len() - k,
    {
        if s[pos + k] != w[k] {
            assert(s@.subrange(pos as int, pos + w.len())[k as int] != w@[k as int]);
            return false;
        }
        k += 1;
    }
    assert(s@.subrange(pos as int, pos + w.len()) =~= w@);
    true
}

/// The numbers of a list separated by spaces, read from `pos` on: `None` where a token is not
/// a number that fits in 64 bits.
pub open spec fn number_list(s: Seq<u8>, pos: int) -> Option<Seq<u64>>
    decreases s.len() - pos,
{
    let p = spaces_end(s, pos);
    if pos < 0 || pos > s.len() {
        None
    } else if p >= s.len() {
        Some(Seq::empty())
    } else {
        let e = digits_end(s, p);
        if e <= p || p < pos || e > s.len() || digits_value(s.subrange(p, e)) > u64::MAX || (e
            < s.len() && s[e] != 0x20) {
            None
        } else {
            match number_list(s, e) {
                Some(rest) => Some(seq![digits_value(s.subrange(p, e)) as u64] + rest),
                None => None,
            }
        }
    }
}

pub proof fn lemma_spaces_end(s: Seq<u8>, pos: int)
    requires
        0 <= pos <= s.len(),
    ensures
        pos <= spaces_end(s, pos) <= s.len(),
    decreases s.len() - pos,
{
    if pos < s.len() && s[pos] == 0x20 {
        lemma_spaces_end(s, pos + 1);
    }
}

/// Reads the list of numbers separated by spaces that fills `s` from `pos` on.
pub fn parse_number_list(s: &[u8], pos: usize) -> (r: Option<Vec<u64>>)
    requires
        pos <= s.len(),
    ensures
        r matches Some(v) ==> number_list(s@, pos as int) == Some(v@),
        r.is_none() ==> number_list(s@, pos as int).is_none(),
    decreases s.len() - pos,
{
    let p = skip_spaces(s, pos);
    if p >= s.len() {
        return Some(Vec::new());
    }
    proof {
        lemma_spaces_end(s@, pos as int);
    }
    proof {
        lemma_digits_end(s@, p as int);
    }
    let (v, e) = match parse_number(s, p) {
        Some(x) => x,
        None => {
            return None;
        },
    };
    if e < s.len() && s[e] != 0x20 {
        return None;
    }
    match parse_number_list(s, e) {
        Some(rest) => {
            let mut out: Vec<u64> = Vec::new();
            out.push(v);
            let mut i: usize = 0;
            while i < rest.len()
                invariant
                    i <= rest.len(),
                    out@ == seq![v] + rest@.take(i as int),
                decreases rest.len() - i,
            {
                out.push(rest[i]);
                i += 1;
                assert(rest@.take(i as int) == rest@.take(i - 1).push(rest@[i - 1]));
            }
            assert(rest@.take(rest.len() as int) == rest@);
            Some(out)
        },
        None => None,
    }
}

/// A copy of the bytes.
pub fn copy_bytes(a: &Vec<u8>) -> (r: Vec<u8>)
    ensures
        r@ == a@,
{
    let mut out: Vec<u8> = Vec::new();
    let mut i: usize = 0;
    while i < a.len()
        invariant
            i <= a.len(),
            out@ == a@.take(i as int),
        decreases a.len() - i,
    {
        out.push(a[i]);
        i += 1;
        assert(out@ =~= a@.take(i as int));
    }
    assert(a@.take(a.len() as int) == a@);
    out
}

/// `ls` cut into blocks at every empty line; there is always at least one block.
pub open spec fn blocks_of(ls: Seq<Seq<u8>>) -> Seq<Seq<Seq<u8>>>
    decreases ls.len(),
{
    if ls.len() == 0 {
        seq![Seq::<Seq<u8>>::empty()]
    } else {
        let p = blocks_of(ls.drop_last());
        if ls.last().len() == 0 {
            p.push(Seq::<Seq<u8>>::empty())
        } else {
            p.update(p.len() - 1, p.last().push(ls.last()))
        }
    }
}

pub open spec fn lines_view(b: Vec<Vec<u8>>) -> Seq<Seq<u8>> {
    b@.map_values(|l: Vec<u8>| l@)
}

/// The blocks of lines between the empty lines.
pub fn blocks(ls: &Vec<Vec<u8>>) -> (r: Vec<Vec<Vec<u8>>>)
    ensures
        r@.map_values(|b: Vec<Vec<u8>>| lines_view(b)) == blocks_of(lines_view(*ls)),
{
    let ghost lv = lines_view(*ls);
    let mut out: Vec<Vec<Vec<u8>>> = Vec::new();
    let mut cur: Vec<Vec<u8>> = Vec::new();
    assert(lines_view(cur) =~= Seq::<Seq<u8>>::empty());
    assert(out@.map_values(|b: Vec<Vec<u8>>| lines_view(b)).push(lines_view(cur)) =~= blocks_of(lv.take(0)));
    let mut i: usize = 0;
    while i < ls.len()
        invariant
            i <= ls.len(),
            lv == lines_view(*ls),
            out@.map_values(|b: Vec<Vec<u8>>| lines_view(b)).push(lines_view(cur)) == blocks_of(lv.take(i as int)),
        decreases ls.len() - i,
    {
        let ghost before = out@.map_values(|b: Vec<Vec<u8>>| lines_view(b)).push(lines_view(cur));
        assert(lv.take(i + 1).drop_last() == lv.take(i as int));
        assert(lv.take(i + 1).last() == ls@[i as int]@);
        if ls[i].len() == 0 {
            let ghost prev_out = out@.map_values(|b: Vec<Vec<u8>>| lines_view(b));
            let ghost last = lines_view(cur);
            out.push(cur);
            cur = Vec::new();
            assert(out@.map_values(|b: Vec<Vec<u8>>| lines_view(b)) =~= prev_out.push(last));
            assert(lines_view(cur) =~= Seq::<Seq<u8>>::empty());
            assert(out@.map_values(|b: Vec<Vec<u8>>| lines_view(b)).push(lines_view(cur)) =~= before.push(Seq::<Seq<u8>>::empty()));
        } else {
            let ghost old_cur = lines_view(cur);
            cur.push(copy_bytes(&ls[i]));
            assert(lines_view(cur) =~= old_cur.push(ls@[i as int]@));
            assert(out@.map_values(|b: Vec<Vec<u8>>| lines_view(b)).push(lines_view(cur)) =~= before.update(
                before.len() - 1,
                before.last().push(ls@[i as int]@),
            ));
        }
        i += 1;
    }
    assert(lv.take(ls.len() as int) == lv);
    out.push(cur);
    assert(out@.map_values(|b: Vec<Vec<u8>>| lines_view(b)) =~= blocks_of(lv));
    out
}

} // verus!
