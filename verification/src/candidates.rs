//! Digit sets of candidate masks, and the compartment facts the human
//! strategies read: the union of candidates, the digits already placed, the
//! straights a compartment can still hold and the digits every such straight
//! contains.
use vstd::prelude::*;
use crate::board::{HumanStr8ts, N, row_run, col_run, comps_view};
use crate::mask::{bit, bit_of, has_digit, is_digit, is_mask, lemma_bit_has, lemma_has_and, lemma_has_and_not, lemma_has_or, lemma_mask_ext, lemma_mask_ops_closed};

verus! {

/// The digits 1..=9 in increasing order.
pub open spec fn all_digits() -> Seq<u8> {
    Seq::new(9, |k: int| (k + 1) as u8)
}

/// The digits of a mask, in increasing order.
pub open spec fn digits_of(m: u16) -> Seq<u8> {
    all_digits().filter(|d: u8| has_digit(m, d))
}

/// How many digits a mask holds.
pub open spec fn popcount(m: u16) -> nat {
    digits_of(m).len()
}

pub proof fn lemma_digits_of(m: u16)
    ensures
        forall|d: u8| #[trigger] digits_of(m).contains(d) <==> is_digit(d) && has_digit(m, d),
        forall|i: int| 0 <= i < digits_of(m).len() ==> is_digit(#[trigger] digits_of(m)[i]) && has_digit(m, digits_of(m)[i]),
        forall|i: int, j: int| 0 <= i < j < digits_of(m).len() ==> #[trigger] digits_of(m)[i] < #[trigger] digits_of(m)[j],
        digits_of(m).len() <= 9,
{
    let p = |d: u8| has_digit(m, d);
    let all = all_digits();
    assert forall|d: u8| #[trigger] digits_of(m).contains(d) <==> is_digit(d) && has_digit(m, d) by {
        if digits_of(m).contains(d) {
            all.lemma_filter_contains_rev(p, d);
        }
        if is_digit(d) && has_digit(m, d) {
            assert(all[d - 1] == d);
            all.lemma_filter_contains(p, d - 1);
        }
    }
    assert forall|i: int| 0 <= i < digits_of(m).len() implies is_digit(#[trigger] digits_of(m)[i]) && has_digit(m, digits_of(m)[i]) by {
        all.lemma_filter_pred(p, i);
        assert(digits_of(m).contains(digits_of(m)[i]));
    }
    all.lemma_filter_len(p);
    lemma_filter_sorted(all, p);
}

pub proof fn lemma_filter_sorted(s: Seq<u8>, p: spec_fn(u8) -> bool)
    requires forall|i: int, j: int| 0 <= i < j < s.len() ==> #[trigger] s[i] < #[trigger] s[j],
    ensures
        forall|i: int, j: int| 0 <= i < j < s.filter(p).len() ==> #[trigger] s.filter(p)[i] < #[trigger] s.filter(p)[j],
        forall|i: int| 0 <= i < s.filter(p).len() ==> s.contains(#[trigger] s.filter(p)[i]),
    decreases s.len(),
{
    reveal(Seq::filter);
    if s.len() > 0 {
        let t = s.drop_last();
        lemma_filter_sorted(t, p);
        assert forall|i: int| 0 <= i < t.filter(p).len() implies #[trigger] t.filter(p)[i] < s.last() by {
            assert(t.contains(t.filter(p)[i]));
            let k = choose|k: int| 0 <= k < t.len() && t[k] == t.filter(p)[i];
            assert(s[k] == t[k]);
        }
        assert forall|i: int| 0 <= i < t.filter(p).len() implies s.contains(#[trigger] t.filter(p)[i]) by {
            let k = choose|k: int| 0 <= k < t.len() && t[k] == t.filter(p)[i];
            assert(s[k] == t[k]);
        }
        assert(s[s.len() - 1] == s.last());
    }
}

/// The digits of `m` in increasing order.
pub fn mask_values(m: u16) -> (v: Vec<u8>)
    ensures v@ == digits_of(m),
{
    let mut v: Vec<u8> = Vec::new();
    let ghost all = all_digits();
    let ghost p = |d: u8| has_digit(m, d);
    for d in 1..10u8
        invariant
            all == all_digits(),
            p == (|d: u8| has_digit(m, d)),
            v@ == all.take(d - 1).filter(p),
    {
        proof {
            assert(all.take(d as int).drop_last() == all.take(d - 1));
            assert(all.take(d as int).last() == d);
            reveal_with_fuel(Seq::filter, 1);
        }
        if m & bit(d) != 0 {
            v.push(d);
        }
    }
    proof {
        assert(all.take(9) == all);
    }
    v
}

/// The number of digits in `m`.
pub(crate) fn count_digits(m: u16) -> (k: usize)
    ensures k == popcount(m), k <= 9,
{
    proof {
        lemma_digits_of(m);
    }
    mask_values(m).len()
}

/// The only digit of a mask that holds exactly one.
pub(crate) fn mask_single(m: u16) -> (r: Option<u8>)
    ensures
        r is Some <==> popcount(m) == 1,
        r matches Some(d) ==> digits_of(m) == seq![d] && is_digit(d) && has_digit(m, d),
{
    let v = mask_values(m);
    if v.len() == 1 {
        proof {
            lemma_digits_of(m);
            assert(digits_of(m) == seq![v@[0]]);
        }
        Some(v[0])
    } else {
        None
    }
}

/// The mask of the digits `start .. start + size`.
/// The bits of the digits `start .. start + size`.
pub open spec fn range_bits(start: int, size: int) -> u16
    decreases size,
{
    if size <= 0 {
        0
    } else {
        range_bits(start, size - 1) | bit_of((start + size - 1) as u8)
    }
}

pub(crate) fn range_mask(start: u8, size: usize) -> (m: u16)
    requires 1 <= start, start + size <= 10,
    ensures
        m == range_bits(start as int, size as int),
        is_mask(m),
        forall|d: u8| is_digit(d) ==> (#[trigger] has_digit(m, d) <==> start <= d < start + size),
{
    let mut m: u16 = 0;
    let end = start + size as u8;
    let mut n = start;
    proof {
        assert forall|d: u8| is_digit(d) implies !#[trigger] has_digit(0u16, d) by {
            assert(!has_digit(0u16, d)) by (bit_vector) requires 1 <= d <= 9;
        }
    }
    while n < end
        invariant
            1 <= start <= n <= end <= 10,
            end == start + size,
            is_mask(m),
            m == range_bits(start as int, n - start),
            forall|d: u8| is_digit(d) ==> (#[trigger] has_digit(m, d) <==> start <= d < n),
        decreases end - n,
    {
        let b = bit(n);
        proof {
            lemma_mask_ops_closed(m, b);
            assert forall|d: u8| is_digit(d) implies (#[trigger] has_digit(m | b, d) <==> start <= d < n + 1) by {
                lemma_has_or(m, b, d);
                lemma_bit_has(n, d);
            }
        }
        m = m | b;
        n = n + 1;
    }
    m
}


// ---------------------------------------------------------------------------
// Compartments
// ---------------------------------------------------------------------------

/// A compartment's cells lie on the board and are white.
pub open spec fn comp_ok(black: [[bool; N]; N], comp: Seq<(usize, usize)>) -> bool {
    &&& 1 <= comp.len() <= 9
    &&& forall|k: int| 0 <= k < comp.len() ==> {
        &&& (#[trigger] comp[k]).0 < 9
        &&& comp[k].1 < 9
        &&& !black[comp[k].0 as int][comp[k].1 as int]
    }
}

pub proof fn lemma_comps_ok(s: HumanStr8ts)
    requires s.structure_wf(),
    ensures
        forall|i: int| 0 <= i < s.row_compartments@.len() ==> comp_ok(s.is_black, #[trigger] s.row_compartments@[i]@),
        forall|i: int| 0 <= i < s.col_compartments@.len() ==> comp_ok(s.is_black, #[trigger] s.col_compartments@[i]@),
{
    assert forall|i: int| 0 <= i < s.row_compartments@.len() implies comp_ok(s.is_black, #[trigger] s.row_compartments@[i]@) by {
        let comp = s.row_compartments@[i]@;
        assert(comps_view(s.row_compartments)[i] == comp);
        assert(row_run(s.is_black, comp));
        assert forall|k: int| 0 <= k < comp.len() implies {
            &&& (#[trigger] comp[k]).0 < 9
            &&& comp[k].1 < 9
            &&& !s.is_black[comp[k].0 as int][comp[k].1 as int]
        } by {
            assert(!s.is_black[comp[0].0 as int][comp[0].1 + k]);
        }
    }
    assert forall|i: int| 0 <= i < s.col_compartments@.len() implies comp_ok(s.is_black, #[trigger] s.col_compartments@[i]@) by {
        let comp = s.col_compartments@[i]@;
        assert(comps_view(s.col_compartments)[i] == comp);
        assert(col_run(s.is_black, comp));
        assert forall|k: int| 0 <= k < comp.len() implies {
            &&& (#[trigger] comp[k]).0 < 9
            &&& comp[k].1 < 9
            &&& !s.is_black[comp[k].0 as int][comp[k].1 as int]
        } by {
            assert(!s.is_black[comp[0].0 + k][comp[0].1 as int]);
        }
    }
}

/// A copy of a compartment.
pub(crate) fn copy_comp(v: &Vec<(usize, usize)>) -> (w: Vec<(usize, usize)>)
    ensures w@ == v@,
{
    let mut w: Vec<(usize, usize)> = Vec::new();
    for i in 0..v.len()
        invariant w@ == v@.take(i as int),
    {
        proof {
            assert(v@.take(i + 1) == v@.take(i as int).push(v@[i as int]));
        }
        w.push(v[i]);
    }
    proof {
        assert(v@.take(v@.len() as int) == v@);
    }
    w
}

/// Appends copies of the compartments of `src` to `v`.
fn append_comps(v: &mut Vec<Vec<(usize, usize)>>, src: &Vec<Vec<(usize, usize)>>, Ghost(black): Ghost<[[bool; N]; N]>)
    requires
        forall|k: int| 0 <= k < src@.len() ==> comp_ok(black, #[trigger] src@[k]@),
        forall|k: int| 0 <= k < old(v)@.len() ==> comp_ok(black, #[trigger] old(v)@[k]@),
    ensures
        comps_view(*final(v)) == comps_view(*old(v)) + comps_view(*src),
        forall|k: int| 0 <= k < final(v)@.len() ==> comp_ok(black, #[trigger] final(v)@[k]@),
{
    let ghost start = comps_view(*v);
    for i in 0..src.len()
        invariant
            comps_view(*v) == start + comps_view(*src).take(i as int),
            forall|k: int| 0 <= k < src@.len() ==> comp_ok(black, #[trigger] src@[k]@),
            forall|k: int| 0 <= k < v@.len() ==> comp_ok(black, #[trigger] v@[k]@),
    {
        let w = copy_comp(&src[i]);
        let ghost before = comps_view(*v);
        v.push(w);
        proof {
            assert(comps_view(*v) =~= before.push(w@));
            assert(comps_view(*src)[i as int] == src@[i as int]@);
            assert(comps_view(*v) =~= start + comps_view(*src).take(i + 1));
        }
    }
    proof {
        assert(comps_view(*src).take(comps_view(*src).len() as int) == comps_view(*src));
    }
}

/// The row compartments followed by the column compartments.
pub(crate) fn all_compartments(s: &HumanStr8ts) -> (v: Vec<Vec<(usize, usize)>>)
    requires s.structure_wf(),
    ensures
        comps_view(v) == comps_view(s.row_compartments) + comps_view(s.col_compartments),
        forall|i: int| 0 <= i < v@.len() ==> comp_ok(s.is_black, #[trigger] v@[i]@),
{
    proof {
        lemma_comps_ok(*s);
    }
    let mut v: Vec<Vec<(usize, usize)>> = Vec::new();
    proof {
        assert(comps_view(v) =~= Seq::<Seq<(usize, usize)>>::empty());
    }
    append_comps(&mut v, &s.row_compartments, Ghost(s.is_black));
    append_comps(&mut v, &s.col_compartments, Ghost(s.is_black));
    proof {
        assert(Seq::<Seq<(usize, usize)>>::empty() + comps_view(s.row_compartments) =~= comps_view(s.row_compartments));
    }
    v
}

/// Digit `d` is a candidate of some cell of `comp`.
pub open spec fn comp_has(cands: [[u16; N]; N], comp: Seq<(usize, usize)>, d: u8) -> bool {
    exists|k: int| 0 <= k < comp.len() && #[trigger] has_digit(cands[comp[k].0 as int][comp[k].1 as int], d)
}

/// Digit `d` is placed in a solved cell of `comp`.
pub open spec fn comp_placed(s: HumanStr8ts, comp: Seq<(usize, usize)>, d: u8) -> bool {
    exists|k: int| 0 <= k < comp.len() && #[trigger] s.solved[comp[k].0 as int][comp[k].1 as int] && s.numbers[comp[k].0 as int][comp[k].1 as int] == d
}

/// The union of the candidates of a compartment.
pub(crate) fn get_compartment_candidates(s: &HumanStr8ts, comp: &Vec<(usize, usize)>) -> (m: u16)
    requires s.wf(), comp_ok(s.is_black, comp@),
    ensures
        is_mask(m),
        forall|d: u8| is_digit(d) ==> (#[trigger] has_digit(m, d) <==> comp_has(s.candidates, comp@, d)),
{
    let mut m: u16 = 0;
    proof {
        assert forall|d: u8| is_digit(d) implies !#[trigger] has_digit(0u16, d) by {
            assert(!has_digit(0u16, d)) by (bit_vector) requires 1 <= d <= 9;
        }
    }
    for i in 0..comp.len()
        invariant
            s.wf(), comp_ok(s.is_black, comp@),
            is_mask(m),
            forall|d: u8| is_digit(d) ==> (#[trigger] has_digit(m, d) <==> comp_has(s.candidates, comp@.take(i as int), d)),
    {
        let (r, c) = comp[i];
        proof {
            assert(comp@[i as int] == (r, c));
        }
        let x = s.candidates[r][c];
        proof {
            lemma_mask_ops_closed(m, x);
            assert forall|d: u8| is_digit(d) implies (#[trigger] has_digit(m | x, d) <==> comp_has(s.candidates, comp@.take(i + 1), d)) by {
                lemma_has_or(m, x, d);
                let t = comp@.take(i + 1);
                if has_digit(m | x, d) {
                    if has_digit(x, d) {
                        assert(t[i as int] == (r, c));
                    } else {
                        let k = choose|k: int| 0 <= k < i && #[trigger] has_digit(s.candidates[comp@.take(i as int)[k].0 as int][comp@.take(i as int)[k].1 as int], d);
                        assert(t[k] == comp@.take(i as int)[k]);
                    }
                }
                if comp_has(s.candidates, t, d) {
                    let k = choose|k: int| 0 <= k < t.len() && #[trigger] has_digit(s.candidates[t[k].0 as int][t[k].1 as int], d);
                    if k < i {
                        assert(t[k] == comp@.take(i as int)[k]);
                    }
                }
            }
        }
        m = m | x;
    }
    proof {
        assert(comp@.take(comp@.len() as int) == comp@);
    }
    m
}

/// The digits placed in the solved cells of a compartment.
pub(crate) fn get_compartment_solved_values(s: &HumanStr8ts, comp: &Vec<(usize, usize)>) -> (m: u16)
    requires s.wf(), comp_ok(s.is_black, comp@),
    ensures
        is_mask(m),
        forall|d: u8| is_digit(d) ==> (#[trigger] has_digit(m, d) <==> comp_placed(*s, comp@, d)),
{
    let mut m: u16 = 0;
    proof {
        assert forall|d: u8| is_digit(d) implies !#[trigger] has_digit(0u16, d) by {
            assert(!has_digit(0u16, d)) by (bit_vector) requires 1 <= d <= 9;
        }
    }
    for i in 0..comp.len()
        invariant
            s.wf(), comp_ok(s.is_black, comp@),
            is_mask(m),
            forall|d: u8| is_digit(d) ==> (#[trigger] has_digit(m, d) <==> comp_placed(*s, comp@.take(i as int), d)),
    {
        let (r, c) = comp[i];
        proof {
            assert(comp@[i as int] == (r, c));
        }
        if s.solved[r][c] {
            let n = s.numbers[r][c];
            let x = bit(n);
            proof {
                lemma_mask_ops_closed(m, x);
                assert forall|d: u8| is_digit(d) implies (#[trigger] has_digit(m | x, d) <==> comp_placed(*s, comp@.take(i + 1), d)) by {
                    lemma_has_or(m, x, d);
                    lemma_bit_has(n, d);
                    let t = comp@.take(i + 1);
                    if has_digit(m | x, d) {
                        if d == n {
                            assert(t[i as int] == (r, c));
                        } else {
                            let k = choose|k: int| 0 <= k < i && #[trigger] s.solved[comp@.take(i as int)[k].0 as int][comp@.take(i as int)[k].1 as int] && s.numbers[comp@.take(i as int)[k].0 as int][comp@.take(i as int)[k].1 as int] == d;
                            assert(t[k] == comp@.take(i as int)[k]);
                        }
                    }
                    if comp_placed(*s, t, d) {
                        let k = choose|k: int| 0 <= k < t.len() && #[trigger] s.solved[t[k].0 as int][t[k].1 as int] && s.numbers[t[k].0 as int][t[k].1 as int] == d;
                        if k < i {
                            assert(t[k] == comp@.take(i as int)[k]);
                        }
                    }
                }
            }
            m = m | x;
        } else {
            proof {
                assert forall|d: u8| is_digit(d) implies (#[trigger] has_digit(m, d) <==> comp_placed(*s, comp@.take(i + 1), d)) by {
                    let t = comp@.take(i + 1);
                    if has_digit(m, d) {
                        let k = choose|k: int| 0 <= k < i && #[trigger] s.solved[comp@.take(i as int)[k].0 as int][comp@.take(i as int)[k].1 as int] && s.numbers[comp@.take(i as int)[k].0 as int][comp@.take(i as int)[k].1 as int] == d;
                        assert(t[k] == comp@.take(i as int)[k]);
                    }
                    if comp_placed(*s, t, d) {
                        let k = choose|k: int| 0 <= k < t.len() && #[trigger] s.solved[t[k].0 as int][t[k].1 as int] && s.numbers[t[k].0 as int][t[k].1 as int] == d;
                        if k < i {
                            assert(t[k] == comp@.take(i as int)[k]);
                        }
                    }
                }
            }
        }
    }
    proof {
        assert(comp@.take(comp@.len() as int) == comp@);
    }
    m
}


// ---------------------------------------------------------------------------
// Straights
// ---------------------------------------------------------------------------

/// The straight `start .. start + size` uses candidates only and holds every
/// digit of `required`.
pub open spec fn range_fits(cands: u16, size: int, required: u16, start: int) -> bool {
    &&& forall|d: u8| is_digit(d) && start <= d < start + size ==> #[trigger] has_digit(cands, d)
    &&& forall|d: u8| is_digit(d) && #[trigger] has_digit(required, d) ==> start <= d < start + size
}

/// The first digits of the straights of length `size` that fit.
pub open spec fn range_starts(cands: u16, size: int, required: u16) -> Seq<u8> {
    Seq::new((10 - size) as nat, |i: int| (i + 1) as u8).filter(|st: u8| range_fits(cands, size, required, st as int))
}

/// The straights of length `size` that fit, as (first, last) digit.
pub open spec fn possible_ranges(cands: u16, size: int, required: u16) -> Seq<(u8, u8)> {
    if size <= 0 {
        Seq::empty()
    } else {
        range_starts(cands, size, required).map_values(|st: u8| (st, (st + size - 1) as u8))
    }
}

proof fn lemma_sub_eq(a: u16, b: u16)
    requires is_mask(a),
    ensures (a & b == a) <==> forall|d: u8| is_digit(d) && #[trigger] has_digit(a, d) ==> has_digit(b, d),
{
    lemma_mask_ops_closed(a, b);
    if forall|d: u8| is_digit(d) && #[trigger] has_digit(a, d) ==> has_digit(b, d) {
        assert forall|d: u8| is_digit(d) implies (#[trigger] has_digit(a & b, d) <==> has_digit(a, d)) by {
            lemma_has_and(a, b, d);
        }
        lemma_mask_ext(a & b, a);
    }
    if a & b == a {
        assert forall|d: u8| is_digit(d) && #[trigger] has_digit(a, d) implies has_digit(b, d) by {
            lemma_has_and(a, b, d);
        }
    }
}

proof fn lemma_none_outside(a: u16, b: u16)
    requires is_mask(a),
    ensures (a & !b == 0) <==> forall|d: u8| is_digit(d) && #[trigger] has_digit(a, d) ==> has_digit(b, d),
{
    lemma_mask_ops_closed(a, b);
    assert forall|d: u8| is_digit(d) implies !#[trigger] has_digit(0u16, d) by {
        assert(!has_digit(0u16, d)) by (bit_vector) requires 1 <= d <= 9;
    }
    if forall|d: u8| is_digit(d) && #[trigger] has_digit(a, d) ==> has_digit(b, d) {
        assert forall|d: u8| is_digit(d) implies (#[trigger] has_digit(a & !b, d) <==> has_digit(0u16, d)) by {
            lemma_has_and_not(a, b, d);
        }
        lemma_mask_ext(a & !b, 0u16);
    }
    if a & !b == 0 {
        assert forall|d: u8| is_digit(d) && #[trigger] has_digit(a, d) implies has_digit(b, d) by {
            lemma_has_and_not(a, b, d);
        }
    }
}

/// The straights of length `size` made of `candidates` that hold all of `required`.
pub(crate) fn get_possible_ranges(candidates: u16, size: usize, required: u16) -> (out: Vec<(u8, u8)>)
    requires size <= 9, is_mask(required),
    ensures out@ == possible_ranges(candidates, size as int, required),
{
    let mut out: Vec<(u8, u8)> = Vec::new();
    let ghost all = Seq::new((10 - size) as nat, |i: int| (i + 1) as u8);
    let ghost p = |st: u8| range_fits(candidates, size as int, required, st as int);
    if size == 0 {
        proof {
            assert(out@ =~= possible_ranges(candidates, size as int, required));
        }
        return out;
    }
    let top = (10 - size) as u8;
    for start in 1..top + 1
        invariant
            1 <= size <= 9,
            top == 10 - size,
            is_mask(required),
            all == Seq::new((10 - size) as nat, |i: int| (i + 1) as u8),
            p == (|st: u8| range_fits(candidates, size as int, required, st as int)),
            out@ == all.take(start - 1).filter(p).map_values(|st: u8| (st, (st + size - 1) as u8)),
    {
        proof {
            assert(all.take(start as int).drop_last() == all.take(start - 1));
            assert(all.take(start as int).last() == start);
            reveal_with_fuel(Seq::filter, 1);
        }
        let end = start + size as u8 - 1;
        let rmask = range_mask(start, size);
        proof {
            lemma_sub_eq(rmask, candidates);
            lemma_none_outside(required, rmask);
        }
        let fits = (rmask & candidates) == rmask && (required & !rmask) == 0;
        proof {
            if fits {
                assert forall|d: u8| is_digit(d) && start <= d < start + size implies #[trigger] has_digit(candidates, d) by {
                    assert(has_digit(rmask, d));
                }
                assert forall|d: u8| is_digit(d) && #[trigger] has_digit(required, d) implies start <= d < start + size by {
                    assert(has_digit(rmask, d));
                }
            }
            if p(start) {
                assert forall|d: u8| is_digit(d) && #[trigger] has_digit(rmask, d) implies has_digit(candidates, d) by {}
                assert forall|d: u8| is_digit(d) && #[trigger] has_digit(required, d) implies has_digit(rmask, d) by {}
            }
            assert(fits == p(start));
        }
        if fits {
            out.push((start, end));
        }
        proof {
            let f = |st: u8| (st, (st + size - 1) as u8);
            assert(out@ =~= all.take(start as int).filter(p).map_values(f));
        }
    }
    proof {
        assert(all.take(top as int) == all);
    }
    out
}

/// The mask of the candidates of the cells of `comp`.
pub open spec fn comp_cands_mask(cands: [[u16; N]; N], comp: Seq<(usize, usize)>) -> u16 {
    choose|m: u16| is_mask(m) && forall|d: u8| is_digit(d) ==> (#[trigger] has_digit(m, d) <==> comp_has(cands, comp, d))
}

/// The mask of the digits placed in the solved cells of `comp`.
pub open spec fn comp_solved_mask(s: HumanStr8ts, comp: Seq<(usize, usize)>) -> u16 {
    choose|m: u16| is_mask(m) && forall|d: u8| is_digit(d) ==> (#[trigger] has_digit(m, d) <==> comp_placed(s, comp, d))
}

/// The straights that the compartment `comp` can still hold.
pub open spec fn comp_ranges(s: HumanStr8ts, comp: Seq<(usize, usize)>) -> Seq<(u8, u8)> {
    possible_ranges(comp_cands_mask(s.candidates, comp), comp.len() as int, comp_solved_mask(s, comp))
}

/// Digit `d` lies in every straight that `comp` can still hold, and there is one.
pub open spec fn comp_sure(s: HumanStr8ts, comp: Seq<(usize, usize)>, d: u8) -> bool {
    let r = comp_ranges(s, comp);
    r.len() > 0 && forall|i: int| 0 <= i < r.len() ==> #[trigger] r[i].0 <= d < r[i].0 + comp.len()
}

/// The straights a compartment can still hold.
pub(crate) fn get_compartment_ranges(s: &HumanStr8ts, comp: &Vec<(usize, usize)>) -> (out: Vec<(u8, u8)>)
    requires s.wf(), comp_ok(s.is_black, comp@),
    ensures
        out@ == comp_ranges(*s, comp@),
        exists|cands: u16, solved: u16| {
            &&& is_mask(cands) && is_mask(solved)
            &&& (forall|d: u8| is_digit(d) ==> (#[trigger] has_digit(cands, d) <==> comp_has(s.candidates, comp@, d)))
            &&& (forall|d: u8| is_digit(d) ==> (#[trigger] has_digit(solved, d) <==> comp_placed(*s, comp@, d)))
            &&& out@ == possible_ranges(cands, comp@.len() as int, solved)
        },
        forall|i: int| 0 <= i < out@.len() ==> 1 <= (#[trigger] out@[i]).0 && out@[i].0 + comp@.len() <= 10,
{
    let cands = get_compartment_candidates(s, comp);
    let solved = get_compartment_solved_values(s, comp);
    let out = get_possible_ranges(cands, comp.len(), solved);
    proof {
        lemma_ranges_bounds(cands, comp@.len() as int, solved);
        let cm = comp_cands_mask(s.candidates, comp@);
        let sm = comp_solved_mask(*s, comp@);
        assert(is_mask(cm) && forall|d: u8| is_digit(d) ==> (#[trigger] has_digit(cm, d) <==> comp_has(s.candidates, comp@, d)));
        assert(is_mask(sm) && forall|d: u8| is_digit(d) ==> (#[trigger] has_digit(sm, d) <==> comp_placed(*s, comp@, d)));
        lemma_mask_ext(cm, cands);
        lemma_mask_ext(sm, solved);
    }
    out
}

pub proof fn lemma_ranges_bounds(cands: u16, size: int, required: u16)
    requires 1 <= size <= 9,
    ensures
        forall|i: int| 0 <= i < possible_ranges(cands, size, required).len() ==> {
            &&& 1 <= (#[trigger] possible_ranges(cands, size, required)[i]).0
            &&& possible_ranges(cands, size, required)[i].0 + size <= 10
            &&& possible_ranges(cands, size, required)[i].1 == possible_ranges(cands, size, required)[i].0 + size - 1
            &&& range_fits(cands, size, required, possible_ranges(cands, size, required)[i].0 as int)
        },
{
    let all = Seq::new((10 - size) as nat, |i: int| (i + 1) as u8);
    let p = |st: u8| range_fits(cands, size, required, st as int);
    assert forall|i: int| 0 <= i < possible_ranges(cands, size, required).len() implies {
        &&& 1 <= (#[trigger] possible_ranges(cands, size, required)[i]).0
        &&& possible_ranges(cands, size, required)[i].0 + size <= 10
        &&& possible_ranges(cands, size, required)[i].1 == possible_ranges(cands, size, required)[i].0 + size - 1
        &&& range_fits(cands, size, required, possible_ranges(cands, size, required)[i].0 as int)
    } by {
        let st = all.filter(p)[i];
        all.lemma_filter_pred(p, i);
        assert(all.filter(p).contains(st));
        all.lemma_filter_contains_rev(p, st);
    }
}

/// The digits in every one of the given straights of length `size`.
pub(crate) fn get_sure_candidates(ranges: &Vec<(u8, u8)>, size: usize) -> (sure: u16)
    requires forall|i: int| 0 <= i < ranges@.len() ==> 1 <= (#[trigger] ranges@[i]).0 && ranges@[i].0 + size <= 10,
    ensures
        is_mask(sure),
        forall|d: u8| is_digit(d) ==> (#[trigger] has_digit(sure, d) <==> ranges@.len() > 0 && forall|i: int|
            0 <= i < ranges@.len() ==> #[trigger] ranges@[i].0 <= d < ranges@[i].0 + size),
{
    if ranges.len() == 0 {
        proof {
            assert forall|d: u8| is_digit(d) implies !#[trigger] has_digit(0u16, d) by {
                assert(!has_digit(0u16, d)) by (bit_vector) requires 1 <= d <= 9;
            }
        }
        return 0;
    }
    let mut sure = range_mask(ranges[0].0, size);
    for k in 1..ranges.len()
        invariant
            forall|i: int| 0 <= i < ranges@.len() ==> 1 <= (#[trigger] ranges@[i]).0 && ranges@[i].0 + size <= 10,
            ranges@.len() > 0,
            is_mask(sure),
            forall|d: u8| is_digit(d) ==> (#[trigger] has_digit(sure, d) <==> forall|i: int|
                0 <= i < k ==> #[trigger] ranges@[i].0 <= d < ranges@[i].0 + size),
    {
        let rm = range_mask(ranges[k].0, size);
        proof {
            lemma_mask_ops_closed(sure, rm);
            assert forall|d: u8| is_digit(d) implies (#[trigger] has_digit(sure & rm, d) <==> forall|i: int|
                0 <= i < k + 1 ==> #[trigger] ranges@[i].0 <= d < ranges@[i].0 + size) by {
                lemma_has_and(sure, rm, d);
            }
        }
        sure = sure & rm;
    }
    sure
}

/// Every white cell still has a candidate.
pub open spec fn board_valid(s: HumanStr8ts) -> bool {
    forall|r: int, c: int| 0 <= r < 9 && 0 <= c < 9 && !s.is_black[r][c] ==> #[trigger] s.candidates[r][c] != 0
}

/// Every white cell is solved.
pub open spec fn board_done(s: HumanStr8ts) -> bool {
    forall|r: int, c: int| 0 <= r < 9 && 0 <= c < 9 && !s.is_black[r][c] ==> #[trigger] s.solved[r][c]
}

pub(crate) fn is_valid(s: &HumanStr8ts) -> (v: bool)
    ensures v == board_valid(*s),
{
    for r in 0..N
        invariant forall|i: int, c: int| 0 <= i < r && 0 <= c < 9 && !s.is_black[i][c] ==> #[trigger] s.candidates[i][c] != 0,
    {
        for c in 0..N
            invariant
                r < 9,
                forall|i: int, j: int| 0 <= i < 9 && 0 <= j < 9 && (i < r || (i == r && j < c)) && !s.is_black[i][j] ==> #[trigger] s.candidates[i][j] != 0,
        {
            if !s.is_black[r][c] && s.candidates[r][c] == 0 {
                return false;
            }
        }
    }
    true
}

pub(crate) fn is_done(s: &HumanStr8ts) -> (v: bool)
    ensures v == board_done(*s),
{
    for r in 0..N
        invariant forall|i: int, c: int| 0 <= i < r && 0 <= c < 9 && !s.is_black[i][c] ==> #[trigger] s.solved[i][c],
    {
        for c in 0..N
            invariant
                r < 9,
                forall|i: int, j: int| 0 <= i < 9 && 0 <= j < 9 && (i < r || (i == r && j < c)) && !s.is_black[i][j] ==> #[trigger] s.solved[i][j],
        {
            if !s.is_black[r][c] && !s.solved[r][c] {
                return false;
            }
        }
    }
    true
}


/// Digit `n` is in mask `m`.
pub(crate) fn mask_has(m: u16, n: u8) -> (r: bool)
    requires is_digit(n),
    ensures r == has_digit(m, n),
{
    m & bit(n) != 0
}

/// The cells of `comp` that have `n` as a candidate, in order.
pub open spec fn cells_having(cands: [[u16; N]; N], comp: Seq<(usize, usize)>, n: u8) -> Seq<(usize, usize)> {
    comp.filter(|p: (usize, usize)| has_digit(cands[p.0 as int][p.1 as int], n))
}

pub(crate) fn cells_with(s: &HumanStr8ts, comp: &Vec<(usize, usize)>, n: u8) -> (out: Vec<(usize, usize)>)
    requires comp_ok(s.is_black, comp@), is_digit(n),
    ensures
        out@ == cells_having(s.candidates, comp@, n),
        out@.len() <= comp@.len(),
        forall|k: int| 0 <= k < out@.len() ==> {
            &&& comp@.contains(#[trigger] out@[k])
            &&& out@[k].0 < 9 && out@[k].1 < 9
            &&& !s.is_black[out@[k].0 as int][out@[k].1 as int]
            &&& has_digit(s.candidates[out@[k].0 as int][out@[k].1 as int], n)
        },
{
    let mut out: Vec<(usize, usize)> = Vec::new();
    let ghost p = |q: (usize, usize)| has_digit(s.candidates[q.0 as int][q.1 as int], n);
    for i in 0..comp.len()
        invariant
            comp_ok(s.is_black, comp@), is_digit(n),
            p == (|q: (usize, usize)| has_digit(s.candidates[q.0 as int][q.1 as int], n)),
            out@ == comp@.take(i as int).filter(p),
    {
        proof {
            assert(comp@.take(i + 1).drop_last() == comp@.take(i as int));
            assert(comp@.take(i + 1).last() == comp@[i as int]);
            reveal_with_fuel(Seq::filter, 1);
        }
        let (r, c) = comp[i];
        if mask_has(s.candidates[r][c], n) {
            out.push((r, c));
        }
    }
    proof {
        assert(comp@.take(comp@.len() as int) == comp@);
        comp@.lemma_filter_len(p);
        assert forall|k: int| 0 <= k < out@.len() implies {
            &&& comp@.contains(#[trigger] out@[k])
            &&& out@[k].0 < 9 && out@[k].1 < 9
            &&& !s.is_black[out@[k].0 as int][out@[k].1 as int]
            &&& has_digit(s.candidates[out@[k].0 as int][out@[k].1 as int], n)
        } by {
            comp@.lemma_filter_pred(p, k);
            assert(comp@.filter(p).contains(out@[k]));
            comp@.lemma_filter_contains_rev(p, out@[k]);
            let j = choose|j: int| 0 <= j < comp@.len() && comp@[j] == out@[k];
            assert(comp_ok(s.is_black, comp@));
            assert(comp@[j].0 < 9);
        }
    }
    out
}


/// A copy of a list of compartments.
pub(crate) fn copy_comps(v: &Vec<Vec<(usize, usize)>>) -> (w: Vec<Vec<(usize, usize)>>)
    ensures comps_view(w) == comps_view(*v),
{
    let mut w: Vec<Vec<(usize, usize)>> = Vec::new();
    for i in 0..v.len()
        invariant comps_view(w) == comps_view(*v).take(i as int),
    {
        let c = copy_comp(&v[i]);
        let ghost before = comps_view(w);
        w.push(c);
        proof {
            assert(comps_view(w) =~= before.push(c@));
            assert(comps_view(*v)[i as int] == v@[i as int]@);
            assert(comps_view(w) =~= comps_view(*v).take(i + 1));
        }
    }
    proof {
        assert(comps_view(*v).take(comps_view(*v).len() as int) =~= comps_view(*v));
    }
    w
}

/// `t` holds the same board as `s`.
pub open spec fn copy_of(t: HumanStr8ts, s: HumanStr8ts) -> bool {
    &&& t.solved == s.solved
    &&& t.numbers == s.numbers
    &&& t.is_black == s.is_black
    &&& t.candidates == s.candidates
    &&& comps_view(t.row_compartments) == comps_view(s.row_compartments)
    &&& comps_view(t.col_compartments) == comps_view(s.col_compartments)
    &&& t.cell_to_row_compartment == s.cell_to_row_compartment
    &&& t.cell_to_col_compartment == s.cell_to_col_compartment
}

/// A copy of the board.
pub(crate) fn copy_board(s: &HumanStr8ts) -> (t: HumanStr8ts)
    ensures copy_of(t, *s), s.wf() ==> t.wf(),
{
    HumanStr8ts {
        solved: s.solved,
        numbers: s.numbers,
        is_black: s.is_black,
        candidates: s.candidates,
        row_compartments: copy_comps(&s.row_compartments),
        col_compartments: copy_comps(&s.col_compartments),
        cell_to_row_compartment: s.cell_to_row_compartment,
        cell_to_col_compartment: s.cell_to_col_compartment,
    }
}

} // verus!
