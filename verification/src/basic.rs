//! The strategies that work compartment by compartment: single candidates,
//! sure candidates, stranded digits, split compartments, mind the gap and the
//! compartment range check.
use vstd::prelude::*;
use crate::board::{HumanStr8ts, N, comps_view};
use crate::setti::{comp_line, line_cell, line_comps};
use crate::sets::unsolved_cell;
use crate::candidates::{comp_ranges, range_bits, cells_having, comp_cands_mask, comp_has, comp_placed, comp_solved_mask, comp_sure, 
    all_compartments, cells_with, comp_ok, copy_comp, count_digits, digits_of, get_compartment_candidates,
    get_compartment_ranges, get_compartment_solved_values, get_sure_candidates, lemma_comps_ok, lemma_digits_of,
    mask_has, mask_single, mask_values, popcount, range_mask,
};
use crate::hardness::{H_SINGLE, H_SURE_CANDIDATES, stranded_h, split_h, mindgap_h, range_check_h, stranded_hardness, split_hardness, mindgap_hardness, range_check_hardness};
use crate::mask::{bit, bit_of, has_digit, is_digit, is_mask, lemma_bit_has, lemma_has_and, lemma_zero_has_none, lemma_has_and_not, lemma_has_or, lemma_mask_ext, lemma_mask_ops_closed};
use crate::hopcroft_karp::{adj_in_range, has_perfect_matching, inf, perfect_matching_exists, valid_matching};
use crate::moves::{add_digit, digit_placed, lemma_clear_bit, lemma_listed_take, listed, lemma_strategy_done, lemma_no_progress, lemma_tracks_chain, lemma_tracks_refl, moved, narrow, on_board, others_same, progress, rem_candidate, strategy_done, strike_digit, tracks};

verus! {

/// The white unsolved cell `(r, c)` has a single candidate left.
pub open spec fn naked_single(s: HumanStr8ts, r: int, c: int) -> bool {
    &&& 0 <= r < 9 && 0 <= c < 9
    &&& !s.is_black[r][c] && !s.solved[r][c]
    &&& popcount(s.candidates[r][c]) == 1
}

/// In the compartment `comp`, `n` is sure and a single cell can take it,
/// which is not solved yet.
pub open spec fn single_applies(s: HumanStr8ts, comp: Seq<(usize, usize)>, n: u8) -> bool {
    &&& is_digit(n)
    &&& comp_sure(s, comp, n)
    &&& cells_having(s.candidates, comp, n).len() == 1
    &&& !s.solved[cells_having(s.candidates, comp, n)[0].0 as int][cells_having(s.candidates, comp, n)[0].1 as int]
}

/// `b` is `a` with the single cell of `comp` that can take `n` solved as `n`.
pub open spec fn single_placed(a: HumanStr8ts, b: HumanStr8ts, comp: Seq<(usize, usize)>, n: u8) -> bool {
    let rc = cells_having(a.candidates, comp, n)[0];
    digit_placed(a, b, rc.0 as int, rc.1 as int, n)
}

/// Some compartment of `comps` has a single place for a sure digit.
pub open spec fn comps_single(s: HumanStr8ts, comps: Seq<Seq<(usize, usize)>>) -> bool {
    exists|i: int, n: u8| 0 <= i < comps.len() && #[trigger] single_applies(s, comps[i], n)
}

/// Places a digit: the only candidate of a cell, or a sure digit of a
/// compartment that only one cell can take.
pub(crate) fn use_single(s: &mut HumanStr8ts) -> (res: i32)
    requires old(s).wf(),
    ensures
        strategy_done(*old(s), *final(s), res, H_SINGLE),
        res == 0 <==> !(exists|r: int, c: int| #[trigger] naked_single(*old(s), r, c)) && !comps_single(
            *old(s),
            comps_view(old(s).row_compartments),
        ) && !comps_single(*old(s), comps_view(old(s).col_compartments)),
        res != 0 ==> (exists|r: int, c: int| #[trigger] naked_single(*old(s), r, c) && digit_placed(
            *old(s),
            *final(s),
            r,
            c,
            digits_of(old(s).candidates[r][c])[0],
        )) || (exists|i: int, n: u8| 0 <= i < old(s).row_compartments@.len() && #[trigger] single_applies(
            *old(s),
            old(s).row_compartments@[i]@,
            n,
        ) && single_placed(*old(s), *final(s), old(s).row_compartments@[i]@, n)) || (exists|i: int, n: u8| 0 <= i
            < old(s).col_compartments@.len() && #[trigger] single_applies(*old(s), old(s).col_compartments@[i]@, n)
            && single_placed(*old(s), *final(s), old(s).col_compartments@[i]@, n)),
{
    let ghost s0 = *s;
    proof {
        lemma_tracks_refl(s0);
        lemma_comps_ok(s0);
    }
    let mut r: usize = 0;
    while r < N
        invariant
            *s == s0, s0.wf(), s0 == *old(s), r <= 9,
            forall|i: int, j: int| 0 <= i < r ==> !#[trigger] naked_single(s0, i, j),
        decreases 9 - r,
    {
        let mut c: usize = 0;
        while c < N
            invariant
                *s == s0, s0.wf(), r < 9, s0 == *old(s), c <= 9,
                forall|i: int, j: int| 0 <= i < r ==> !#[trigger] naked_single(s0, i, j),
                forall|j: int| 0 <= j < c ==> !#[trigger] naked_single(s0, r as int, j),
            decreases 9 - c,
        {
            if !s.is_black[r][c] && !s.solved[r][c] && count_digits(s.candidates[r][c]) == 1 {
                match mask_single(s.candidates[r][c]) {
                    Some(n) => {
                        proof {
                            assert(has_digit(s0.candidates[r as int][c as int], n));
                            assert(!s0.solved[r as int][c as int]);
                        }
                        add_digit(s, r, c, n);
                        proof {
                            lemma_strategy_done(s0, *s, true, H_SINGLE);
                            assert(naked_single(s0, r as int, c as int));
                        }
                        return H_SINGLE;
                    },
                    None => {},
                }
            }
            c = c + 1;
        }
        proof {
            assert forall|i: int, j: int| 0 <= i < r + 1 implies !#[trigger] naked_single(s0, i, j) by {
                if i == r && 0 <= j < 9 {
                    assert(!naked_single(s0, r as int, j));
                }
            }
        }
        r = r + 1;
    }
    let ghost rows = s.row_compartments@;
    let count = s.row_compartments.len();
    let mut i: usize = 0;
    while i < count
        invariant
            *s == s0, s0.wf(), s0 == *old(s), i <= count,
            rows == s.row_compartments@,
            count == rows.len(),
            forall|k: int| 0 <= k < rows.len() ==> comp_ok(s0.is_black, #[trigger] rows[k]@),
            forall|k: int, n: u8| 0 <= k < i ==> !#[trigger] single_applies(s0, rows[k]@, n),
        decreases count - i,
    {
        let comp = copy_comp(&s.row_compartments[i]);
        proof {
            assert(comp_ok(s0.is_black, rows[i as int]@));
        }
        if single_in_comp(s, &comp) {
            proof {
                lemma_strategy_done(s0, *s, true, H_SINGLE);
                let n = choose|n: u8| #[trigger] single_applies(s0, comp@, n) && single_placed(s0, *s, comp@, n);
                assert(single_applies(s0, rows[i as int]@, n));
                assert(comps_view(s0.row_compartments)[i as int] == rows[i as int]@);
                assert(single_applies(s0, comps_view(s0.row_compartments)[i as int], n));
            }
            return H_SINGLE;
        }
        i = i + 1;
    }
    proof {
        assert(comps_view(s0.row_compartments)=~= rows.map_values(|comp: Vec<(usize, usize)>| comp@));
        assert(!comps_single(s0, comps_view(s0.row_compartments))) by {
            if comps_single(s0, comps_view(s0.row_compartments)) {
                let (k, n) = choose|k: int, n: u8| 0 <= k < comps_view(s0.row_compartments).len() && #[trigger] single_applies(
                    s0,
                    comps_view(s0.row_compartments)[k],
                    n,
                );
                assert(!single_applies(s0, rows[k]@, n));
            }
        }
    }
    let ghost cols = s.col_compartments@;
    let count = s.col_compartments.len();
    let mut i: usize = 0;
    while i < count
        invariant
            *s == s0, s0.wf(), s0 == *old(s), i <= count,
            cols == s.col_compartments@,
            count == cols.len(),
            forall|k: int| 0 <= k < cols.len() ==> comp_ok(s0.is_black, #[trigger] cols[k]@),
            forall|k: int, n: u8| 0 <= k < i ==> !#[trigger] single_applies(s0, cols[k]@, n),
        decreases count - i,
    {
        let comp = copy_comp(&s.col_compartments[i]);
        proof {
            assert(comp_ok(s0.is_black, cols[i as int]@));
        }
        if single_in_comp(s, &comp) {
            proof {
                lemma_strategy_done(s0, *s, true, H_SINGLE);
                let n = choose|n: u8| #[trigger] single_applies(s0, comp@, n) && single_placed(s0, *s, comp@, n);
                assert(single_applies(s0, cols[i as int]@, n));
                assert(comps_view(s0.col_compartments)[i as int] == cols[i as int]@);
                assert(single_applies(s0, comps_view(s0.col_compartments)[i as int], n));
            }
            return H_SINGLE;
        }
        i = i + 1;
    }
    proof {
        lemma_strategy_done(s0, *s, false, H_SINGLE);
        assert(comps_view(s0.col_compartments)=~= cols.map_values(|comp: Vec<(usize, usize)>| comp@));
        assert(!comps_single(s0, comps_view(s0.col_compartments))) by {
            if comps_single(s0, comps_view(s0.col_compartments)) {
                let (k, n) = choose|k: int, n: u8| 0 <= k < comps_view(s0.col_compartments).len() && #[trigger] single_applies(
                    s0,
                    comps_view(s0.col_compartments)[k],
                    n,
                );
                assert(!single_applies(s0, cols[k]@, n));
            }
        }
        assert forall|r: int, c: int| !#[trigger] naked_single(s0, r, c) by {
            if 0 <= r < 9 {
                assert(!naked_single(s0, r, c));
            }
        }
    }
    0
}

/// In one compartment: a sure digit with a single cell left for it goes there.
fn single_in_comp(s: &mut HumanStr8ts, comp: &Vec<(usize, usize)>) -> (placed: bool)
    requires old(s).wf(), comp_ok(old(s).is_black, comp@),
    ensures
        placed ==> tracks(*old(s), *final(s), true),
        !placed ==> *final(s) == *old(s),
        placed <==> exists|n: u8| #[trigger] single_applies(*old(s), comp@, n),
        placed ==> exists|n: u8| #[trigger] single_applies(*old(s), comp@, n) && single_placed(*old(s), *final(s), comp@, n),
{
    let ghost s0 = *s;
    let ranges = get_compartment_ranges(s, comp);
    let sure = get_sure_candidates(&ranges, comp.len());
    let vals = mask_values(sure);
    proof {
        lemma_digits_of(sure);
    }
    let mut k: usize = 0;
    while k < vals.len()
        invariant
            *s == *old(s), s0 == *old(s),
            old(s).wf(),
            comp_ok(old(s).is_black, comp@),
            vals@ == digits_of(sure),
            k <= vals@.len(),
            forall|d: u8| is_digit(d) ==> (#[trigger] has_digit(sure, d) <==> comp_sure(s0, comp@, d)),
            forall|i: int| 0 <= i < digits_of(sure).len() ==> is_digit(#[trigger] digits_of(sure)[i]) && has_digit(sure, digits_of(sure)[i]),
            forall|j: int| 0 <= j < k ==> !#[trigger] single_applies(s0, comp@, vals@[j]),
        decreases vals@.len() - k,
    {
        let n = vals[k];
        let cells = cells_with(s, comp, n);
        if cells.len() == 1 {
            let (r, c) = cells[0];
            if !s.solved[r][c] {
                proof {
                    assert(cells@.len() == 1);
                    assert(has_digit(s.candidates[r as int][c as int], n));
                    assert(single_applies(s0, comp@, n));
                }
                add_digit(s, r, c, n);
                proof {
                    assert(single_placed(s0, *s, comp@, n));
                }
                return true;
            }
        }
        k = k + 1;
    }
    proof {
        assert forall|n: u8| !#[trigger] single_applies(s0, comp@, n) by {
            if single_applies(s0, comp@, n) {
                assert(has_digit(sure, n));
                assert(digits_of(sure).contains(n));
                let j = choose|j: int| 0 <= j < vals@.len() && vals@[j] == n;
                assert(!single_applies(s0, comp@, vals@[j]));
            }
        }
    }
    false
}

/// Whether digit `n` can lie in some straight of `size` digits built from
/// `cands` that holds every digit of `solved`.
fn can_be_part(cands: u16, solved: u16, n: u8, size: usize) -> (ok: bool)
    requires is_digit(n), 1 <= size <= 9,
    ensures
        ok == exists|start: int| 1 <= start && start + size <= 10 && start <= n < start + size && #[trigger] straight_fits(
            cands,
            solved,
            start,
            size as int,
        ),
{
    let size_less = if size >= 1 { size - 1 } else { 0 };
    let low = if (n as usize) > size_less { n as usize - size_less } else { 0 };
    let start_min = if low > 1 { low } else { 1 };
    let start_max = if (n as usize) < 10 - size { n as usize } else { 10 - size };
    let mut start = start_min;
    while start <= start_max
        invariant
            1 <= start, start_max + size <= 10, start_min <= start,
            start_min == (if n - size + 1 > 1 { n - size + 1 } else { 1 }),
            start_max == (if n < 10 - size { n as int } else { 10 - size }),
            forall|st: int| start_min <= st < start ==> !#[trigger] straight_fits(cands, solved, st, size as int),
        decreases start_max + 1 - start,
    {
        let rmask = range_mask(start as u8, size);
        if (rmask & cands) == rmask && (solved & !rmask) == 0 {
            proof {
                assert(straight_fits(cands, solved, start as int, size as int));
            }
            return true;
        }
        start = start + 1;
    }
    proof {
        assert forall|st: int| 1 <= st && st + size <= 10 && st <= n < st + size implies !#[trigger] straight_fits(
            cands,
            solved,
            st,
            size as int,
        ) by {
            assert(start_min <= st <= start_max);
        }
    }
    false
}

/// The straight `start .. start + size` uses candidates of `cands` only and
/// leaves no digit of `solved` out.
pub open spec fn straight_fits(cands: u16, solved: u16, start: int, size: int) -> bool {
    &&& range_bits(start, size) & cands == range_bits(start, size)
    &&& solved & !range_bits(start, size) == 0
}

/// Removes digits that no straight of the compartment can hold, and, in a
/// compartment of two cells, digits with no neighbour among the other cell's.
pub(crate) fn use_stranded_digits(s: &mut HumanStr8ts, comp_size: usize) -> (res: i32)
    requires old(s).wf(), 1 <= comp_size <= 9,
    ensures
        strategy_done(*old(s), *final(s), res, stranded_h(comp_size as int) as i32),
        res == 0 <==> !exists|i: int| 0 <= i < comps_view(old(s).row_compartments).len() + comps_view(old(s).col_compartments).len()
            && (comps_view(old(s).row_compartments) + comps_view(old(s).col_compartments))[i].len() == comp_size && #[trigger] stranded_bites(
            *old(s),
            (comps_view(old(s).row_compartments) + comps_view(old(s).col_compartments))[i],
        ),
{
    let ghost s0 = *s;
    let mut effective = false;
    proof {
        lemma_tracks_refl(s0);
    }
    let comps = all_compartments(s);
    let ghost all = comps_view(comps);
    let mut ci: usize = 0;
    while ci < comps.len()
        invariant
            s0 == *old(s), s0.wf(), ci <= comps@.len(), 1 <= comp_size <= 9,
            tracks(s0, *s, effective),
            !effective ==> *s == s0,
            all == comps_view(comps), all.len() == comps@.len(),
            forall|k: int| 0 <= k < comps@.len() ==> comp_ok(s0.is_black, #[trigger] comps@[k]@),
            effective <==> exists|i: int| 0 <= i < ci && all[i].len() == comp_size && #[trigger] stranded_bites(s0, all[i]),
        decreases comps@.len() - ci,
    {
        let comp = &comps[ci];
        proof {
            assert(comp_ok(s0.is_black, comps@[ci as int]@));
            assert(all[ci as int] == comp@);
        }
        let ghost eff0 = effective;
        let size = comp.len();
        if size == comp_size {
            let cands = get_compartment_candidates(s, comp);
            let solved = get_compartment_solved_values(s, comp);
            let vals = mask_values(cands);
            proof {
                lemma_digits_of(cands);
                if !eff0 {
                    let cm = comp_cands_mask(s0.candidates, comp@);
                    let sm = comp_solved_mask(s0, comp@);
                    assert(is_mask(cm) && forall|d: u8| is_digit(d) ==> (#[trigger] has_digit(cm, d) <==> comp_has(s0.candidates, comp@, d)));
                    assert(is_mask(sm) && forall|d: u8| is_digit(d) ==> (#[trigger] has_digit(sm, d) <==> comp_placed(s0, comp@, d)));
                    lemma_mask_ext(cm, cands);
                    lemma_mask_ext(sm, solved);
                }
            }
            let mut k: usize = 0;
            while k < vals.len()
                invariant
                    s0 == *old(s), s0.wf(), k <= vals@.len(),
                    tracks(s0, *s, effective),
                    !effective ==> *s == s0,
                    comp_ok(s0.is_black, comp@),
                    1 <= size <= 9, size == comp@.len(),
                    vals@ == digits_of(cands),
                    forall|i: int| 0 <= i < digits_of(cands).len() ==> is_digit(#[trigger] digits_of(cands)[i]),
                    !eff0 ==> cands == comp_cands_mask(s0.candidates, comp@) && solved == comp_solved_mask(s0, comp@),
                    !eff0 ==> forall|d: u8| is_digit(d) ==> (#[trigger] has_digit(cands, d) <==> comp_has(s0.candidates, comp@, d)),
                    effective <==> eff0 || exists|j: int| 0 <= j < k && #[trigger] stranded_digit(s0, comp@, vals@[j]),
                decreases vals@.len() - k,
            {
                let n = vals[k];
                let ghost eff_before = effective;
                if !can_be_part(cands, solved, n, size) {
                    let ghost before = *s;
                    let e = strike_digit(s, comp, n);
                    proof {
                        lemma_tracks_chain(s0, before, *s, effective, e);
                        if !e {
                            lemma_no_progress(before, *s);
                        }
                        if !eff_before {
                            assert(has_digit(cands, n));
                            assert(stranded_digit(s0, comp@, n));
                            let q = choose|q: int| 0 <= q < comp@.len() && #[trigger] has_digit(s0.candidates[comp@[q].0 as int][comp@[q].1 as int], n);
                        }
                    }
                    if e {
                        effective = true;
                    }
                } else {
                    proof {
                        if !eff0 {
                            assert(!stranded_digit(s0, comp@, n));
                        }
                    }
                }
                proof {
                    assert(effective <==> eff0 || exists|j: int| 0 <= j < k + 1 && #[trigger] stranded_digit(s0, comp@, vals@[j])) by {
                        if exists|j: int| 0 <= j < k + 1 && #[trigger] stranded_digit(s0, comp@, vals@[j]) {
                            let j = choose|j: int| 0 <= j < k + 1 && #[trigger] stranded_digit(s0, comp@, vals@[j]);
                            if j < k {
                                assert(exists|j: int| 0 <= j < k && #[trigger] stranded_digit(s0, comp@, vals@[j]));
                            }
                        }
                    }
                }
                k = k + 1;
            }
            proof {
                if !eff0 {
                    assert((exists|j: int| 0 <= j < vals@.len() && #[trigger] stranded_digit(s0, comp@, vals@[j])) <==> exists|d: u8| #[trigger] stranded_digit(s0, comp@, d)) by {
                        if exists|d: u8| #[trigger] stranded_digit(s0, comp@, d) {
                            let d = choose|d: u8| #[trigger] stranded_digit(s0, comp@, d);
                            assert(has_digit(cands, d));
                            assert(digits_of(cands).contains(d));
                            let j = choose|j: int| 0 <= j < vals@.len() && vals@[j] == d;
                            assert(stranded_digit(s0, comp@, vals@[j]));
                        }
                    }
                }
            }
            if size == 2 {
                let (r1, c1) = comp[0];
                let (r2, c2) = comp[1];
                proof {
                    assert(comp@[0] == (r1, c1));
                    assert(comp@[1] == (r2, c2));
                }
                let ghost before = *s;
                let ghost eff_before = effective;
                let e1 = strip_lonely(s, r1, c1, r2, c2);
                proof {
                    lemma_tracks_chain(s0, before, *s, effective, e1);
                    if !e1 {
                        lemma_no_progress(before, *s);
                    }
                    if !eff_before {
                        assert(before == s0);
                        assert(e1 <==> lonely_bites(s0, r1 as int, c1 as int, r2 as int, c2 as int));
                    }
                }
                if e1 {
                    effective = true;
                }
                let ghost before = *s;
                let ghost eff_mid = effective;
                let e2 = strip_lonely(s, r2, c2, r1, c1);
                proof {
                    lemma_tracks_chain(s0, before, *s, effective, e2);
                    if !e2 {
                        lemma_no_progress(before, *s);
                    }
                    if !eff_mid {
                        assert(before == s0);
                        assert(e2 <==> lonely_bites(s0, r2 as int, c2 as int, r1 as int, c1 as int));
                    }
                }
                if e2 {
                    effective = true;
                }
            }
            proof {
                assert(effective <==> eff0 || stranded_bites(s0, comp@));
            }
        }
        proof {
            assert(effective <==> exists|i: int| 0 <= i < ci + 1 && all[i].len() == comp_size && #[trigger] stranded_bites(s0, all[i])) by {
                if exists|i: int| 0 <= i < ci + 1 && all[i].len() == comp_size && #[trigger] stranded_bites(s0, all[i]) {
                    let i = choose|i: int| 0 <= i < ci + 1 && all[i].len() == comp_size && #[trigger] stranded_bites(s0, all[i]);
                    if i < ci {
                        assert(exists|i: int| 0 <= i < ci && all[i].len() == comp_size && #[trigger] stranded_bites(s0, all[i]));
                    }
                }
            }
        }
        ci = ci + 1;
    }
    proof {
        lemma_strategy_done(s0, *s, effective, stranded_h(comp_size as int) as i32);
    }
    if effective {
        stranded_hardness(comp_size)
    } else {
        0
    }
}

/// Whether digit `d` has neither `d - 1` nor `d + 1` in the mask `other`.
pub open spec fn lonely(other: u16, d: u8) -> bool {
    &&& !(d > 1 && has_digit(other, (d - 1) as u8))
    &&& !(d < 9 && has_digit(other, (d + 1) as u8))
}

/// The unsolved cell `(ra, ca)` has a candidate with no neighbouring digit
/// among the candidates of `(rb, cb)`.
pub open spec fn lonely_bites(s: HumanStr8ts, ra: int, ca: int, rb: int, cb: int) -> bool {
    &&& !s.solved[ra][ca]
    &&& exists|d: u8| is_digit(d) && #[trigger] has_digit(s.candidates[ra][ca], d) && lonely(s.candidates[rb][cb], d)
}

/// Digit `d` is a candidate of the compartment but lies in no straight of
/// its length made of its candidates that holds its placed digits.
pub open spec fn stranded_digit(s: HumanStr8ts, comp: Seq<(usize, usize)>, d: u8) -> bool {
    &&& is_digit(d) && comp_has(s.candidates, comp, d)
    &&& !exists|start: int| 1 <= start && start + comp.len() <= 10 && start <= d < start + comp.len() && #[trigger] straight_fits(
        comp_cands_mask(s.candidates, comp),
        comp_solved_mask(s, comp),
        start,
        comp.len() as int,
    )
}

/// The stranded-digits rule removes something from the compartment.
pub open spec fn stranded_bites(s: HumanStr8ts, comp: Seq<(usize, usize)>) -> bool {
    ||| exists|d: u8| #[trigger] stranded_digit(s, comp, d)
    ||| comp.len() == 2 && lonely_bites(s, comp[0].0 as int, comp[0].1 as int, comp[1].0 as int, comp[1].1 as int)
    ||| comp.len() == 2 && lonely_bites(s, comp[1].0 as int, comp[1].1 as int, comp[0].0 as int, comp[0].1 as int)
}

/// Unless `(ra, ca)` is solved, removes its candidates that have no
/// neighbouring digit among the candidates of `(rb, cb)`.
fn strip_lonely(s: &mut HumanStr8ts, ra: usize, ca: usize, rb: usize, cb: usize) -> (eff: bool)
    requires old(s).wf(), ra < 9, ca < 9, rb < 9, cb < 9, !old(s).is_black[ra as int][ca as int],
    ensures
        tracks(*old(s), *final(s), eff),
        final(s).solved == old(s).solved,
        final(s).numbers == old(s).numbers,
        others_same(old(s).candidates, final(s).candidates, ra as int, ca as int),
        forall|d: u8| is_digit(d) ==> (#[trigger] has_digit(final(s).candidates[ra as int][ca as int], d) <==> has_digit(
            old(s).candidates[ra as int][ca as int],
            d,
        ) && (old(s).solved[ra as int][ca as int] || !lonely(old(s).candidates[rb as int][cb as int], d))),
        eff <==> lonely_bites(*old(s), ra as int, ca as int, rb as int, cb as int),
{
    let ghost s0 = *s;
    let mut eff = false;
    proof {
        lemma_tracks_refl(s0);
    }
    if s.solved[ra][ca] {
        proof {
            assert(!lonely_bites(s0, ra as int, ca as int, rb as int, cb as int));
        }
        return false;
    }
    let other = s.candidates[rb][cb];
    let vals = mask_values(s.candidates[ra][ca]);
    proof {
        lemma_digits_of(s.candidates[ra as int][ca as int]);
    }
    let mut k: usize = 0;
    while k < vals.len()
        invariant
            s0 == *old(s), s0.wf(), ra < 9, ca < 9, rb < 9, cb < 9, !s0.is_black[ra as int][ca as int], s.is_black == s0.is_black,
            !s0.solved[ra as int][ca as int],
            other == s0.candidates[rb as int][cb as int],
            0 <= k <= vals@.len(),
            tracks(s0, *s, eff),
            s.solved == s0.solved,
            s.numbers == s0.numbers,
            others_same(s0.candidates, s.candidates, ra as int, ca as int),
            vals@ == digits_of(s0.candidates[ra as int][ca as int]),
            forall|i: int| 0 <= i < vals@.len() ==> is_digit(#[trigger] vals@[i]),
            forall|d: u8| is_digit(d) ==> (#[trigger] has_digit(s.candidates[ra as int][ca as int], d) <==> has_digit(
                s0.candidates[ra as int][ca as int],
                d,
            ) && !(lonely(other, d) && exists|i: int| 0 <= i < k && vals@[i] == d)),
        decreases vals@.len() - k,
    {
        let n = vals[k];
        let has_adjacent = (n > 1 && mask_has(other, n - 1)) || (n < 9 && mask_has(other, n + 1));
        let ghost before = *s;
        if !has_adjacent && mask_has(s.candidates[ra][ca], n) {
            rem_candidate(s, ra, ca, n);
            proof {
                lemma_tracks_chain(s0, before, *s, eff, true);
            }
            eff = true;
        }
        proof {
            assert forall|d: u8| is_digit(d) implies (#[trigger] has_digit(s.candidates[ra as int][ca as int], d) <==> has_digit(
                s0.candidates[ra as int][ca as int],
                d,
            ) && !(lonely(other, d) && exists|i: int| 0 <= i < k + 1 && vals@[i] == d)) by {
                lemma_has_and_not(before.candidates[ra as int][ca as int], bit_of(n), d);
                lemma_bit_has(n, d);
                if d != n {
                    if exists|i: int| 0 <= i < k + 1 && vals@[i] == d {
                        let i = choose|i: int| 0 <= i < k + 1 && vals@[i] == d;
                        assert(i < k);
                    }
                } else {
                    assert(vals@[k as int] == d);
                }
            }
        }
        k = k + 1;
    }
    proof {
        assert forall|d: u8| is_digit(d) implies (#[trigger] has_digit(s.candidates[ra as int][ca as int], d) <==> has_digit(
            s0.candidates[ra as int][ca as int],
            d,
        ) && !lonely(other, d)) by {
            if has_digit(s0.candidates[ra as int][ca as int], d) {
                assert(vals@.contains(d));
                let i = choose|i: int| 0 <= i < vals@.len() && vals@[i] == d;
                assert(0 <= i < k && vals@[i] == d);
            }
        }
    }
    proof {
        let a = s0.candidates[ra as int][ca as int];
        let b = s.candidates[ra as int][ca as int];
        if eff {
            let (x, y) = choose|x: int, y: int| 0 <= x < 9 && 0 <= y < 9 && #[trigger] moved(s0, *s, x, y);
            assert(x == ra && y == ca);
            if forall|d: u8| is_digit(d) ==> (#[trigger] has_digit(a, d) <==> has_digit(b, d)) {
                lemma_mask_ext(a, b);
            }
            let d = choose|d: u8| !(is_digit(d) ==> (#[trigger] has_digit(a, d) <==> has_digit(b, d)));
            assert(has_digit(a, d) && lonely(other, d));
        }
        if lonely_bites(s0, ra as int, ca as int, rb as int, cb as int) {
            let d = choose|d: u8| is_digit(d) && #[trigger] has_digit(a, d) && lonely(s0.candidates[rb as int][cb as int], d);
            assert(!has_digit(b, d));
            assert(moved(s0, *s, ra as int, ca as int));
        }
    }
    eff
}

/// The row (`by_rows`) or column compartment of the white cell `(r, c)`.
pub open spec fn cell_comp(s: HumanStr8ts, r: int, c: int, by_rows: bool) -> int {
    if by_rows {
        s.cell_to_row_compartment[r][c] as int
    } else {
        s.cell_to_col_compartment[r][c] as int
    }
}

/// Digit `d` is sure in compartment `idx` of line `line`, and the white cell
/// at position `k` of that line, in another compartment, still has it.
#[verifier::opaque]
pub open spec fn sure_strikes(s: HumanStr8ts, by_rows: bool, line: int, idx: int, k: int, d: u8) -> bool {
    let rc = line_cell(line, k, by_rows);
    &&& 0 <= line < 9 && 0 <= k < 9 && 0 <= idx < line_comps(s, by_rows).len()
    &&& comp_line(line_comps(s, by_rows)[idx], by_rows) == line
    &&& !s.is_black[rc.0][rc.1] && cell_comp(s, rc.0, rc.1, by_rows) != idx
    &&& is_digit(d) && comp_sure(s, line_comps(s, by_rows)[idx], d)
    &&& has_digit(s.candidates[rc.0][rc.1], d)
}

/// A sure digit of compartment `idx` of the line still stands elsewhere in it.
pub open spec fn comp_strikes(s: HumanStr8ts, by_rows: bool, line: int, idx: int) -> bool {
    exists|k: int, d: u8| 0 <= k < 9 && #[trigger] sure_strikes(s, by_rows, line, idx, k, d)
}

/// Some compartment of the line strikes.
pub open spec fn line_strikes(s: HumanStr8ts, by_rows: bool, line: int) -> bool {
    exists|idx: int| 0 <= idx < line_comps(s, by_rows).len() && #[trigger] comp_strikes(s, by_rows, line, idx)
}

/// Some sure digit of a compartment still stands elsewhere in its line.
pub open spec fn sure_bites(s: HumanStr8ts, by_rows: bool) -> bool {
    exists|line: int| 0 <= line < 9 && #[trigger] line_strikes(s, by_rows, line)
}

/// One compartment for `sure_in_lines`: its sure digits leave the other
/// white cells of its line.
fn sure_in_comp(s: &mut HumanStr8ts, comp: &Vec<(usize, usize)>, line: usize, idx: usize, by_rows: bool) -> (eff: bool)
    requires
        old(s).wf(), line < 9, idx < line_comps(*old(s), by_rows).len(),
        comp@ == line_comps(*old(s), by_rows)[idx as int],
        comp_ok(old(s).is_black, comp@),
    ensures
        tracks(*old(s), *final(s), eff),
        !eff ==> *final(s) == *old(s),
        eff <==> comp_strikes(*old(s), by_rows, line as int, idx as int),
{
    let ghost s1 = *s;
    let mut eff = false;
    proof {
        lemma_tracks_refl(s1);
    }
    let head = if by_rows { comp[0].0 } else { comp[0].1 };
    if head == line {
        let ranges = get_compartment_ranges(s, comp);
        let sure = get_sure_candidates(&ranges, comp.len());
        let vals = mask_values(sure);
        proof {
            lemma_digits_of(sure);
        }
        let mut k: usize = 0;
        while k < N
            invariant
                s1 == *old(s), s1.wf(), line < 9, k <= 9, idx < line_comps(s1, by_rows).len(),
                tracks(s1, *s, eff), s.is_black == s1.is_black,
                !eff ==> *s == s1,
                comp@ == line_comps(s1, by_rows)[idx as int],
                comp_line(comp@, by_rows) == line,
                vals@ == digits_of(sure),
                forall|i: int| 0 <= i < digits_of(sure).len() ==> is_digit(#[trigger] digits_of(sure)[i]) && has_digit(sure, digits_of(sure)[i]),
                forall|d: u8| is_digit(d) ==> (#[trigger] has_digit(sure, d) <==> comp_sure(s1, comp@, d)),
                eff <==> exists|kk: int, d: u8| 0 <= kk < k && #[trigger] sure_strikes(s1, by_rows, line as int, idx as int, kk, d),
            decreases 9 - k,
        {
            let (r, c) = if by_rows { (line, k) } else { (k, line) };
            proof {
                assert(line_cell(line as int, k as int, by_rows) == (r as int, c as int));
            }
            let ghost eff_k = eff;
            if !s.is_black[r][c] {
                let comp_idx = if by_rows { s.cell_to_row_compartment[r][c] } else { s.cell_to_col_compartment[r][c] };
                if comp_idx != idx {
                    let mut j: usize = 0;
                    while j < vals.len()
                        invariant
                            s1 == *old(s), s1.wf(), r < 9, c < 9, j <= vals@.len(),
                            tracks(s1, *s, eff), s.is_black == s1.is_black, !s1.is_black[r as int][c as int],
                            !eff ==> *s == s1,
                            vals@ == digits_of(sure),
                            forall|i: int| 0 <= i < digits_of(sure).len() ==> is_digit(#[trigger] digits_of(sure)[i]),
                            eff <==> eff_k || exists|jj: int| 0 <= jj < j && #[trigger] has_digit(s1.candidates[r as int][c as int], vals@[jj]),
                        decreases vals@.len() - j,
                    {
                        let n = vals[j];
                        let ghost eff_j = eff;
                        if mask_has(s.candidates[r][c], n) {
                            let ghost before = *s;
                            rem_candidate(s, r, c, n);
                            proof {
                                lemma_tracks_chain(s1, before, *s, eff, true);
                            }
                            eff = true;
                        }
                        proof {
                            assert(eff <==> eff_k || exists|jj: int| 0 <= jj < j + 1 && #[trigger] has_digit(s1.candidates[r as int][c as int], vals@[jj])) by {
                                if exists|jj: int| 0 <= jj < j + 1 && #[trigger] has_digit(s1.candidates[r as int][c as int], vals@[jj]) {
                                    let jj = choose|jj: int| 0 <= jj < j + 1 && #[trigger] has_digit(s1.candidates[r as int][c as int], vals@[jj]);
                                    if jj < j {
                                        assert(exists|jj: int| 0 <= jj < j && #[trigger] has_digit(s1.candidates[r as int][c as int], vals@[jj]));
                                    }
                                }
                            }
                        }
                        j = j + 1;
                    }
                    proof {
                        reveal(sure_strikes);
                        if !eff_k {
                            assert((exists|jj: int| 0 <= jj < vals@.len() && #[trigger] has_digit(s1.candidates[r as int][c as int], vals@[jj]))
                                <==> exists|d: u8| #[trigger] sure_strikes(s1, by_rows, line as int, idx as int, k as int, d)) by {
                                if exists|d: u8| #[trigger] sure_strikes(s1, by_rows, line as int, idx as int, k as int, d) {
                                    let d = choose|d: u8| #[trigger] sure_strikes(s1, by_rows, line as int, idx as int, k as int, d);
                                    assert(has_digit(sure, d));
                                    lemma_digits_of(sure);
                                    assert(digits_of(sure).contains(d));
                                    let jj = choose|jj: int| 0 <= jj < vals@.len() && vals@[jj] == d;
                                    assert(has_digit(s1.candidates[r as int][c as int], vals@[jj]));
                                }
                                if exists|jj: int| 0 <= jj < vals@.len() && #[trigger] has_digit(s1.candidates[r as int][c as int], vals@[jj]) {
                                    let jj = choose|jj: int| 0 <= jj < vals@.len() && #[trigger] has_digit(s1.candidates[r as int][c as int], vals@[jj]);
                                    assert(sure_strikes(s1, by_rows, line as int, idx as int, k as int, vals@[jj]));
                                }
                            }
                        }
                    }
                } else {
                    proof {
                        assert forall|d: u8| !#[trigger] sure_strikes(s1, by_rows, line as int, idx as int, k as int, d) by {
                            reveal(sure_strikes);
                        }
                    }
                }
            } else {
                proof {
                    assert forall|d: u8| !#[trigger] sure_strikes(s1, by_rows, line as int, idx as int, k as int, d) by {
                            reveal(sure_strikes);
                        }
                }
            }
            proof {
                assert(eff <==> exists|kk: int, d: u8| 0 <= kk < k + 1 && #[trigger] sure_strikes(s1, by_rows, line as int, idx as int, kk, d)) by {
                    if exists|kk: int, d: u8| 0 <= kk < k + 1 && #[trigger] sure_strikes(s1, by_rows, line as int, idx as int, kk, d) {
                        let (kk, d) = choose|kk: int, d: u8| 0 <= kk < k + 1 && #[trigger] sure_strikes(s1, by_rows, line as int, idx as int, kk, d);
                        if kk < k {
                            assert(exists|kk: int, d: u8| 0 <= kk < k && #[trigger] sure_strikes(s1, by_rows, line as int, idx as int, kk, d));
                        }
                    }
                }
            }
            k = k + 1;
        }
        proof {
            assert forall|kk: int, d: u8| #[trigger] sure_strikes(s1, by_rows, line as int, idx as int, kk, d) implies 0 <= kk < 9 by {
                reveal(sure_strikes);
            }
        }
    } else {
        proof {
            assert forall|kk: int, d: u8| !#[trigger] sure_strikes(s1, by_rows, line as int, idx as int, kk, d) by {
                reveal(sure_strikes);
            }
        }
    }
    eff
}

/// One row (`by_rows`) or column for `sure_in_lines`.
#[verifier::spinoff_prover]
#[verifier::rlimit(100)]
fn sure_in_line(s: &mut HumanStr8ts, line: usize, by_rows: bool) -> (eff: bool)
    requires old(s).wf(), line < 9,
    ensures
        tracks(*old(s), *final(s), eff),
        !eff ==> *final(s) == *old(s),
        eff <==> line_strikes(*old(s), by_rows, line as int),
{
    let ghost s2 = *s;
    let mut eff = false;
    proof {
        lemma_tracks_refl(s2);
        lemma_comps_ok(s2);
    }
    let count = if by_rows { s.row_compartments.len() } else { s.col_compartments.len() };
    let mut idx: usize = 0;
    while idx < count
        invariant
            s2 == *old(s), s2.wf(), line < 9, idx <= count,
            tracks(s2, *s, eff),
            !eff ==> *s == s2,
            count == line_comps(s2, by_rows).len(),
            count == if by_rows { s2.row_compartments@.len() } else { s2.col_compartments@.len() },
            forall|i: int| 0 <= i < s2.row_compartments@.len() ==> comp_ok(s2.is_black, #[trigger] s2.row_compartments@[i]@),
            forall|i: int| 0 <= i < s2.col_compartments@.len() ==> comp_ok(s2.is_black, #[trigger] s2.col_compartments@[i]@),
            eff <==> exists|i: int| 0 <= i < idx && #[trigger] comp_strikes(s2, by_rows, line as int, i),
        decreases count - idx,
    {
        let ghost eff_i = eff;
        let comp = if by_rows { copy_comp(&s.row_compartments[idx]) } else { copy_comp(&s.col_compartments[idx]) };
        proof {
            if by_rows {
                assert(comp_ok(s2.is_black, s2.row_compartments@[idx as int]@));
            } else {
                assert(comp_ok(s2.is_black, s2.col_compartments@[idx as int]@));
            }
            assert(comp@ == line_comps(s2, by_rows)[idx as int]);
        }
        let ghost before = *s;
        let e = sure_in_comp(s, &comp, line, idx, by_rows);
        proof {
            lemma_tracks_chain(s2, before, *s, eff, e);
        }
        if e {
            eff = true;
        }
        proof {
            assert(eff <==> exists|i: int| 0 <= i < idx + 1 && #[trigger] comp_strikes(s2, by_rows, line as int, i)) by {
                if exists|i: int| 0 <= i < idx + 1 && #[trigger] comp_strikes(s2, by_rows, line as int, i) {
                    let i = choose|i: int| 0 <= i < idx + 1 && #[trigger] comp_strikes(s2, by_rows, line as int, i);
                    if i < idx {
                        assert(exists|i: int| 0 <= i < idx && #[trigger] comp_strikes(s2, by_rows, line as int, i));
                    }
                }
            }
        }
        idx = idx + 1;
    }
    eff
}

/// Removes the sure digits of each compartment from the other white cells of
/// its row (`by_rows`) or column.
#[verifier::spinoff_prover]
#[verifier::rlimit(60)]
fn sure_in_lines(s: &mut HumanStr8ts, by_rows: bool) -> (eff: bool)
    requires old(s).wf(),
    ensures
        tracks(*old(s), *final(s), eff),
        eff <==> sure_bites(*old(s), by_rows),
{
    let ghost s0 = *s;
    let mut eff = false;
    proof {
        lemma_tracks_refl(s0);
    }
    let mut line: usize = 0;
    while line < N
        invariant
            s0 == *old(s), s0.wf(), line <= 9,
            tracks(s0, *s, eff),
            !eff ==> *s == s0,
            eff <==> exists|l: int| 0 <= l < line && #[trigger] line_strikes(s0, by_rows, l),
        decreases 9 - line,
    {
        let ghost before = *s;
        let e = sure_in_line(s, line, by_rows);
        proof {
            lemma_tracks_chain(s0, before, *s, eff, e);
        }
        if e {
            eff = true;
        }
        proof {
            assert(eff <==> exists|l: int| 0 <= l < line + 1 && #[trigger] line_strikes(s0, by_rows, l)) by {
                if exists|l: int| 0 <= l < line + 1 && #[trigger] line_strikes(s0, by_rows, l) {
                    let l = choose|l: int| 0 <= l < line + 1 && #[trigger] line_strikes(s0, by_rows, l);
                    if l < line {
                        assert(exists|l: int| 0 <= l < line && #[trigger] line_strikes(s0, by_rows, l));
                    }
                }
            }
        }
        line = line + 1;
    }
    eff
}

/// A digit sure in one compartment of a row (column) cannot be in the row's
/// (column's) other cells.
pub(crate) fn use_sure_candidates(s: &mut HumanStr8ts) -> (res: i32)
    requires old(s).wf(),
    ensures
        strategy_done(*old(s), *final(s), res, H_SURE_CANDIDATES),
        res == 0 <==> !sure_bites(*old(s), true) && !sure_bites(*old(s), false),
{
    let ghost s0 = *s;
    let e1 = sure_in_lines(s, true);
    let ghost mid = *s;
    proof {
        if !e1 {
            lemma_no_progress(s0, mid);
        }
    }
    let e2 = sure_in_lines(s, false);
    proof {
        lemma_tracks_chain(s0, mid, *s, e1, e2);
        lemma_strategy_done(s0, *s, e1 || e2, H_SURE_CANDIDATES);
    }
    if e1 || e2 {
        H_SURE_CANDIDATES
    } else {
        0
    }
}


/// A non-empty list of straights of length `size`, as (first, last) digit.
pub open spec fn group_ok(g: Seq<(u8, u8)>, size: int) -> bool {
    &&& g.len() >= 1
    &&& forall|k: int| 0 <= k < g.len() ==> 1 <= (#[trigger] g[k]).0 && g[k].0 + size <= 10 && g[k].1 == g[k].0 + size - 1
}

fn overlaps(r1: (u8, u8), r2: (u8, u8)) -> (r: bool)
    ensures r == (r1.0 <= r2.1 && r2.0 <= r1.1),
{
    r1.0 <= r2.1 && r2.0 <= r1.1
}

/// Some straight of `g` overlaps `rng`.
fn any_overlap(g: &Vec<(u8, u8)>, rng: (u8, u8)) -> (r: bool)
    ensures r == exists|k: int| 0 <= k < g@.len() && #[trigger] g@[k].0 <= rng.1 && rng.0 <= g@[k].1,
{
    for k in 0..g.len()
        invariant forall|i: int| 0 <= i < k ==> !(#[trigger] g@[i].0 <= rng.1 && rng.0 <= g@[i].1),
    {
        if overlaps(rng, g[k]) {
            return true;
        }
    }
    false
}

/// Some straight of `a` overlaps some straight of `b`.
fn groups_overlap(a: &Vec<(u8, u8)>, b: &Vec<(u8, u8)>) -> (r: bool)
    ensures r == exists|i: int, j: int| 0 <= i < a@.len() && 0 <= j < b@.len() && #[trigger] a@[i].0 <= #[trigger] b@[j].1 && b@[j].0 <= a@[i].1,
{
    for i in 0..a.len()
        invariant forall|x: int, j: int| 0 <= x < i && 0 <= j < b@.len() ==> !(#[trigger] a@[x].0 <= #[trigger] b@[j].1 && b@[j].0 <= a@[x].1),
    {
        if any_overlap(b, a[i]) {
            return true;
        }
    }
    false
}

/// Some straight of `a` overlaps some straight of `b`.
pub open spec fn groups_meet(a: Seq<(u8, u8)>, b: Seq<(u8, u8)>) -> bool {
    exists|i: int, j: int| 0 <= i < a.len() && 0 <= j < b.len() && #[trigger] a[i].0 <= #[trigger] b[j].1 && b[j].0 <= a[i].1
}

/// The straight `x` is in one of the groups.
pub open spec fn in_groups(gs: Seq<Vec<(u8, u8)>>, x: (u8, u8)) -> bool {
    exists|g: int, k: int| 0 <= g < gs.len() && 0 <= k < gs[g]@.len() && #[trigger] gs[g]@[k] == x
}

/// No straight of one group overlaps a straight of another.
pub open spec fn groups_apart(gs: Seq<Vec<(u8, u8)>>) -> bool {
    forall|a: int, b: int| 0 <= a < b < gs.len() ==> !groups_meet(#[trigger] gs[a]@, #[trigger] gs[b]@)
}

/// Joining group `j` into group `i` keeps the same straights.
proof fn lemma_join_members(gs: Seq<Vec<(u8, u8)>>, ns: Seq<Vec<(u8, u8)>>, gi: Vec<(u8, u8)>, i: int, j: int, x: (u8, u8))
    requires
        0 <= i < j < gs.len(),
        gi@ == gs[i]@ + gs[j]@,
        ns == gs.remove(j).remove(i).insert(i, gi),
    ensures in_groups(gs, x) <==> in_groups(ns, x),
{
    assert(ns.len() == gs.len() - 1);
    assert forall|k: int| 0 <= k < ns.len() implies #[trigger] ns[k] == if k < i {
        gs[k]
    } else if k == i {
        gi
    } else if k < j {
        gs[k]
    } else {
        gs[k + 1]
    } by {}
    if in_groups(gs, x) {
        let (g, k) = choose|g: int, k: int| 0 <= g < gs.len() && 0 <= k < gs[g]@.len() && #[trigger] gs[g]@[k] == x;
        if g == i {
            assert(ns[i]@[k] == x);
        } else if g == j {
            assert(ns[i]@[gs[i]@.len() + k] == x);
        } else if g < j {
            assert(ns[g]@[k] == x);
        } else {
            assert(ns[g - 1]@[k] == x);
        }
    }
    if in_groups(ns, x) {
        let (g, k) = choose|g: int, k: int| 0 <= g < ns.len() && 0 <= k < ns[g]@.len() && #[trigger] ns[g]@[k] == x;
        if g == i {
            if k < gs[i]@.len() {
                assert(gs[i]@[k] == x);
            } else {
                assert(gs[j]@[k - gs[i]@.len()] == x);
            }
        } else if g < j {
            assert(gs[g]@[k] == x);
        } else {
            assert(gs[g + 1]@[k] == x);
        }
    }
}

/// Sorts the straights into groups of pairwise linked (overlapping) ones.
fn group_ranges(ranges: &Vec<(u8, u8)>, Ghost(size): Ghost<int>) -> (groups: Vec<Vec<(u8, u8)>>)
    requires
        forall|k: int| 0 <= k < ranges@.len() ==> 1 <= (#[trigger] ranges@[k]).0 && ranges@[k].0 + size <= 10 && ranges@[k].1 == ranges@[k].0 + size - 1,
    ensures
        forall|g: int| 0 <= g < groups@.len() ==> group_ok(#[trigger] groups@[g]@, size),
        forall|x: (u8, u8)| #[trigger] in_groups(groups@, x) <==> ranges@.contains(x),
        groups_apart(groups@),
{
    let mut groups: Vec<Vec<(u8, u8)>> = Vec::new();
    let mut ri: usize = 0;
    while ri < ranges.len()
        invariant
            ri <= ranges@.len(),
            forall|k: int| 0 <= k < ranges@.len() ==> 1 <= (#[trigger] ranges@[k]).0 && ranges@[k].0 + size <= 10 && ranges@[k].1 == ranges@[k].0 + size - 1,
            forall|g: int| 0 <= g < groups@.len() ==> group_ok(#[trigger] groups@[g]@, size),
            forall|x: (u8, u8)| #[trigger] in_groups(groups@, x) <==> ranges@.take(ri as int).contains(x),
        decreases ranges@.len() - ri,
    {
        let rng = ranges[ri];
        proof {
            assert(1 <= ranges@[ri as int].0);
            assert(ranges@.take(ri + 1) == ranges@.take(ri as int).push(rng));
        }
        let ghost g0 = groups@;
        let mut found = false;
        let mut gi: usize = 0;
        while gi < groups.len() && !found
            invariant
                1 <= rng.0 && rng.0 + size <= 10 && rng.1 == rng.0 + size - 1,
                forall|g: int| 0 <= g < groups@.len() ==> group_ok(#[trigger] groups@[g]@, size),
                !found ==> groups@ == g0,
                found ==> forall|x: (u8, u8)| #[trigger] in_groups(groups@, x) <==> in_groups(g0, x) || x == rng,
            decreases groups@.len() - gi, (if found { 0int } else { 1int }),
        {
            if any_overlap(&groups[gi], rng) {
                let ghost gs = groups@;
                let mut g = groups.remove(gi);
                g.push(rng);
                groups.insert(gi, g);
                proof {
                    let ns = groups@;
                    assert(ns.len() == gs.len());
                    assert forall|k: int| 0 <= k < ns.len() implies #[trigger] ns[k] == if k == gi { g } else { gs[k] } by {}
                    assert forall|x: (u8, u8)| #[trigger] in_groups(ns, x) <==> in_groups(gs, x) || x == rng by {
                        if in_groups(gs, x) {
                            let (a, k) = choose|a: int, k: int| 0 <= a < gs.len() && 0 <= k < gs[a]@.len() && #[trigger] gs[a]@[k] == x;
                            assert(ns[a]@[k] == x);
                        }
                        if x == rng {
                            assert(ns[gi as int]@[g@.len() - 1] == x);
                        }
                        if in_groups(ns, x) {
                            let (a, k) = choose|a: int, k: int| 0 <= a < ns.len() && 0 <= k < ns[a]@.len() && #[trigger] ns[a]@[k] == x;
                            if a != gi && k < gs[a]@.len() {
                                assert(gs[a]@[k] == x);
                            } else if a == gi && k < gs[a]@.len() {
                                assert(gs[a]@[k] == x);
                            }
                        }
                    }
                }
                found = true;
            } else {
                gi = gi + 1;
            }
        }
        if !found {
            let g = vec![rng];
            let ghost gs = groups@;
            groups.push(g);
            proof {
                let ns = groups@;
                assert forall|x: (u8, u8)| #[trigger] in_groups(ns, x) <==> in_groups(gs, x) || x == rng by {
                    if in_groups(gs, x) {
                        let (a, k) = choose|a: int, k: int| 0 <= a < gs.len() && 0 <= k < gs[a]@.len() && #[trigger] gs[a]@[k] == x;
                        assert(ns[a]@[k] == x);
                    }
                    if x == rng {
                        assert(ns[gs.len() as int]@[0] == x);
                    }
                    if in_groups(ns, x) {
                        let (a, k) = choose|a: int, k: int| 0 <= a < ns.len() && 0 <= k < ns[a]@.len() && #[trigger] ns[a]@[k] == x;
                        if a < gs.len() {
                            assert(gs[a]@[k] == x);
                        }
                    }
                }
            }
        }
        proof {
            let t = ranges@.take(ri as int);
            assert forall|x: (u8, u8)| #[trigger] in_groups(groups@, x) <==> t.push(rng).contains(x) by {
                assert(in_groups(groups@, x) <==> in_groups(g0, x) || x == rng);
                if t.push(rng).contains(x) && x != rng {
                    let k = choose|k: int| 0 <= k < t.push(rng).len() && t.push(rng)[k] == x;
                    assert(t[k] == x);
                }
                if t.contains(x) {
                    let k = choose|k: int| 0 <= k < t.len() && t[k] == x;
                    assert(t.push(rng)[k] == x);
                }
                if x == rng {
                    assert(t.push(rng)[t.len() as int] == x);
                }
            }
        }
        ri = ri + 1;
    }
    proof {
        assert(ranges@.take(ranges@.len() as int) == ranges@);
    }
    let ghost before = groups@;
    merge_groups(&mut groups, Ghost(size));
    proof {
        assert forall|x: (u8, u8)| #[trigger] in_groups(groups@, x) <==> ranges@.contains(x) by {
            assert(in_groups(groups@, x) <==> in_groups(before, x));
        }
    }
    groups
}

/// Joins overlapping groups until no two overlap.
fn merge_groups(groups: &mut Vec<Vec<(u8, u8)>>, Ghost(size): Ghost<int>)
    requires forall|g: int| 0 <= g < old(groups)@.len() ==> group_ok(#[trigger] old(groups)@[g]@, size),
    ensures
        forall|g: int| 0 <= g < final(groups)@.len() ==> group_ok(#[trigger] final(groups)@[g]@, size),
        forall|x: (u8, u8)| #[trigger] in_groups(final(groups)@, x) <==> in_groups(old(groups)@, x),
        groups_apart(final(groups)@),
{
    let ghost start = groups@;
    let mut merged = true;
    while merged
        invariant
            forall|g: int| 0 <= g < groups@.len() ==> group_ok(#[trigger] groups@[g]@, size),
            forall|x: (u8, u8)| #[trigger] in_groups(groups@, x) <==> in_groups(start, x),
            !merged ==> groups_apart(groups@),
        decreases groups@.len() + (if merged { 1int } else { 0int }),
    {
        let ghost len0 = groups@.len();
        merged = false;
        let mut i: usize = 0;
        while i < groups.len()
            invariant
                forall|g: int| 0 <= g < groups@.len() ==> group_ok(#[trigger] groups@[g]@, size),
                forall|x: (u8, u8)| #[trigger] in_groups(groups@, x) <==> in_groups(start, x),
                groups@.len() <= len0,
                merged ==> groups@.len() < len0,
                !merged ==> forall|a: int, b: int| 0 <= a < i && a < b < groups@.len() ==> !groups_meet(#[trigger] groups@[a]@, #[trigger] groups@[b]@),
            decreases groups@.len() - i,
        {
            let ghost len_i = groups@.len();
            let mut j = i + 1;
            while j < groups.len()
                invariant
                    i < j, i < groups@.len(),
                    forall|g: int| 0 <= g < groups@.len() ==> group_ok(#[trigger] groups@[g]@, size),
                    forall|x: (u8, u8)| #[trigger] in_groups(groups@, x) <==> in_groups(start, x),
                    groups@.len() <= len_i,
                    len_i <= len0,
                    merged ==> groups@.len() < len0,
                    !merged ==> forall|a: int, b: int| 0 <= a < i && a < b < groups@.len() ==> !groups_meet(#[trigger] groups@[a]@, #[trigger] groups@[b]@),
                    !merged ==> forall|b: int| i < b < j && b < groups@.len() ==> !groups_meet(groups@[i as int]@, #[trigger] groups@[b]@),
                decreases groups@.len() - j,
            {
                if groups_overlap(&groups[i], &groups[j]) {
                    proof {
                        assert(group_ok(groups@[j as int]@, size));
                        assert(group_ok(groups@[i as int]@, size));
                    }
                    let ghost gs = groups@;
                    let other = groups.remove(j);
                    let mut gi = groups.remove(i);
                    proof {
                        assert(group_ok(other@, size));
                        assert(group_ok(gi@, size));
                    }
                    let ghost first = gi@;
                    for k in 0..other.len()
                        invariant
                            group_ok(gi@, size),
                            group_ok(other@, size),
                            gi@ == first + other@.take(k as int),
                    {
                        gi.push(other[k]);
                        proof {
                            assert(gi@.last() == other@[k as int]);
                            assert(other@.take(k + 1) == other@.take(k as int).push(other@[k as int]));
                        }
                    }
                    proof {
                        assert(other@.take(other@.len() as int) == other@);
                    }
                    groups.insert(i, gi);
                    proof {
                        assert forall|x: (u8, u8)| #[trigger] in_groups(groups@, x) <==> in_groups(start, x) by {
                            lemma_join_members(gs, groups@, gi, i as int, j as int, x);
                        }
                    }
                    merged = true;
                } else {
                    proof {
                        assert(!groups_meet(groups@[i as int]@, groups@[j as int]@));
                    }
                    j = j + 1;
                }
            }
            i = i + 1;
        }
    }
}

/// When a compartment's possible straights fall into separate groups, a sure
/// digit of a group leaves every cell with no candidate in that group's span.
/// As written, that never removes anything (see `split_group`).
pub(crate) fn use_split_compartment(s: &mut HumanStr8ts, comp_size: usize) -> (res: i32)
    requires old(s).wf(), 1 <= comp_size <= 9,
    ensures
        strategy_done(*old(s), *final(s), res, split_h(comp_size as int) as i32),
        res == 0,
        *final(s) == *old(s),
{
    let ghost s0 = *s;
    let mut effective = false;
    proof {
        lemma_tracks_refl(s0);
    }
    let comps = all_compartments(s);
    for ci in 0..comps.len()
        invariant
            s0 == *old(s), s0.wf(),
            tracks(s0, *s, effective),
            *s == s0, !effective,
            forall|k: int| 0 <= k < comps@.len() ==> comp_ok(s0.is_black, #[trigger] comps@[k]@),
    {
        let comp = &comps[ci];
        proof {
            assert(comp_ok(s0.is_black, comps@[ci as int]@));
        }
        let size = comp.len();
        if size == comp_size {
            let ranges = get_compartment_ranges(s, comp);
            if ranges.len() > 1 {
                let groups = group_ranges(&ranges, Ghost(size as int));
                if groups.len() > 1 {
                    for gidx in 0..groups.len()
                        invariant
                            s0 == *old(s), s0.wf(),
                            tracks(s0, *s, effective),
                            *s == s0, !effective,
                            comp_ok(s0.is_black, comp@),
                            size == comp@.len(),
                            forall|g: int| 0 <= g < groups@.len() ==> group_ok(#[trigger] groups@[g]@, size as int),
                    {
                        let group = &groups[gidx];
                        proof {
                            assert(group_ok(groups@[gidx as int]@, size as int));
                        }
                        let ghost before = *s;
                        let e = split_group(s, comp, group);
                        proof {
                            lemma_tracks_chain(s0, before, *s, effective, e);
                        }
                        if e {
                            effective = true;
                        }
                    }
                }
            }
        }
    }
    proof {
        lemma_strategy_done(s0, *s, effective, split_h(comp_size as int) as i32);
    }
    if effective {
        split_hardness(comp_size)
    } else {
        0
    }
}

/// For one group of straights: removes a sure digit of the group from the
/// unsolved cells that have no candidate within the group's span. A sure digit
/// lies within that span, so a cell that has it always has a candidate there:
/// the board never changes.
fn split_group(s: &mut HumanStr8ts, comp: &Vec<(usize, usize)>, group: &Vec<(u8, u8)>) -> (eff: bool)
    requires old(s).wf(), comp_ok(old(s).is_black, comp@), group_ok(group@, comp@.len() as int),
    ensures
        tracks(*old(s), *final(s), eff),
        *final(s) == *old(s),
        !eff,
{
    let ghost s0 = *s;
    let mut eff = false;
    proof {
        lemma_tracks_refl(s0);
    }
    let size = comp.len();
    let group_sure = get_sure_candidates(group, size);
    let mut group_min = group[0].0;
    let mut group_max = group[0].1;
    let mut k: usize = 1;
    while k < group.len()
        invariant
            group_ok(group@, size as int), 1 <= k <= group@.len(),
            1 <= group_min <= 9, group_max <= 9,
            forall|i: int| 0 <= i < k ==> group_min <= #[trigger] group@[i].0 && group@[i].1 <= group_max,
        decreases group@.len() - k,
    {
        if group[k].0 < group_min {
            group_min = group[k].0;
        }
        if group[k].1 > group_max {
            group_max = group[k].1;
        }
        k = k + 1;
    }
    let mut group_mask: u16 = 0;
    let mut n = group_min;
    proof {
        assert forall|d: u8| is_digit(d) implies !#[trigger] has_digit(group_mask, d) by {
            lemma_zero_has_none(d);
        }
    }
    proof {
        assert(group_min <= group@[0].0 && group@[0].1 <= group_max);
    }
    while n <= group_max
        invariant
            1 <= group_min <= n, group_max <= 9, n <= 10, n <= group_max + 1,
            group_min <= group@[0].0, group@[0].1 <= group_max,
            forall|d: u8| is_digit(d) ==> (#[trigger] has_digit(group_mask, d) <==> group_min <= d < n),
        decreases 10 - n,
    {
        let ghost prev = group_mask;
        group_mask = group_mask | bit(n);
        proof {
            assert forall|d: u8| is_digit(d) implies (#[trigger] has_digit(group_mask, d) <==> group_min <= d < n + 1) by {
                lemma_has_or(prev, bit_of(n), d);
                lemma_bit_has(n, d);
            }
        }
        n = n + 1;
    }
    let vals = mask_values(group_sure);
    proof {
        lemma_digits_of(group_sure);
    }
    for k in 0..vals.len()
        invariant
            s0 == *old(s), s0.wf(),
            *s == s0, !eff,
            tracks(s0, *s, eff),
            comp_ok(s0.is_black, comp@),
            vals@ == digits_of(group_sure),
            forall|i: int| 0 <= i < digits_of(group_sure).len() ==> is_digit(#[trigger] digits_of(group_sure)[i]) && has_digit(group_sure, digits_of(group_sure)[i]),
            forall|d: u8| is_digit(d) ==> (#[trigger] has_digit(group_mask, d) <==> group_min <= d <= group_max),
            forall|d: u8| is_digit(d) ==> (#[trigger] has_digit(group_sure, d) <==> group@.len() > 0 && forall|i: int|
                0 <= i < group@.len() ==> #[trigger] group@[i].0 <= d < group@[i].0 + size),
            group_ok(group@, size as int), size == comp@.len(),
            group_min <= group@[0].0, group@[0].1 <= group_max,
    {
        let n = vals[k];
        proof {
            assert(has_digit(group_sure, n));
            assert(group@[0].0 <= n < group@[0].0 + size);
            assert(has_digit(group_mask, n));
        }
        for j in 0..comp.len()
            invariant
                s0 == *old(s), s0.wf(),
                *s == s0, !eff,
                tracks(s0, *s, eff),
                comp_ok(s0.is_black, comp@),
                is_digit(n),
                has_digit(group_mask, n),
        {
            let (r, c) = comp[j];
            proof {
                assert(comp@[j as int] == (r, c));
            }
            if !s.solved[r][c] && mask_has(s.candidates[r][c], n) {
                if s.candidates[r][c] & group_mask == 0 {
                    proof {
                        lemma_has_and(s.candidates[r as int][c as int], group_mask, n);
                        lemma_zero_has_none(n);
                        assert(false);
                    }
                    let ghost before = *s;
                    rem_candidate(s, r, c, n);
                    proof {
                        lemma_tracks_chain(s0, before, *s, eff, true);
                    }
                    eff = true;
                }
            }
        }
    }
    eff
}


/// Removes `n` from the unsolved cells of `comp` other than `(r, c)` that have it.
fn strike_others(s: &mut HumanStr8ts, comp: &Vec<(usize, usize)>, r: usize, c: usize, n: u8) -> (eff: bool)
    requires old(s).wf(), comp_ok(old(s).is_black, comp@), is_digit(n),
    ensures
        tracks(*old(s), *final(s), eff),
        final(s).solved == old(s).solved,
        final(s).numbers == old(s).numbers,
        forall|i: int, j: int| 0 <= i < 9 && 0 <= j < 9 ==> #[trigger] final(s).candidates[i][j] == if listed(comp@, i, j) && (i != r
            || j != c) && !old(s).solved[i][j] {
            old(s).candidates[i][j] & !bit_of(n)
        } else {
            old(s).candidates[i][j]
        },
{
    let ghost s0 = *s;
    let mut eff = false;
    proof {
        lemma_tracks_refl(s0);
    }
    for j in 0..comp.len()
        invariant
            s0 == *old(s), s0.wf(),
            tracks(s0, *s, eff),
            comp_ok(s0.is_black, comp@),
            is_digit(n),
            s.solved == s0.solved,
            s.numbers == s0.numbers,
            forall|x: int, y: int| 0 <= x < 9 && 0 <= y < 9 ==> #[trigger] s.candidates[x][y] == if listed(comp@.take(j as int), x, y) && (x
                != r || y != c) && !s0.solved[x][y] {
                s0.candidates[x][y] & !bit_of(n)
            } else {
                s0.candidates[x][y]
            },
    {
        let (r2, c2) = comp[j];
        proof {
            assert(comp@[j as int] == (r2, c2));
        }
        let ghost before = *s;
        if (r2 != r || c2 != c) && !s.solved[r2][c2] && mask_has(s.candidates[r2][c2], n) {
            rem_candidate(s, r2, c2, n);
            proof {
                lemma_tracks_chain(s0, before, *s, eff, true);
            }
            eff = true;
        }
        proof {
            assert forall|x: int, y: int| 0 <= x < 9 && 0 <= y < 9 implies #[trigger] s.candidates[x][y] == if listed(comp@.take(j + 1), x, y)
                && (x != r || y != c) && !s0.solved[x][y] {
                s0.candidates[x][y] & !bit_of(n)
            } else {
                s0.candidates[x][y]
            } by {
                lemma_listed_take(comp@, j as int, x, y);
                lemma_clear_bit(s0.candidates[x][y], bit_of(n));
                lemma_clear_bit(before.candidates[x][y], bit_of(n));
            }
        }
    }
    proof {
        assert(comp@.take(comp@.len() as int) == comp@);
    }
    eff
}

/// The digits of `vals` at or below `bound` (`below`), or at or above it.
pub open spec fn side(vals: Seq<u8>, bound: u8, below: bool) -> Seq<u8> {
    vals.filter(|n: u8| (below && n <= bound) || (!below && n >= bound))
}

/// The digits of `vals` at most `bound` (`below`) or at least `bound`.
fn side_of(vals: &Vec<u8>, bound: u8, below: bool) -> (out: Vec<u8>)
    ensures
        out@ == side(vals@, bound, below),
        forall|k: int| 0 <= k < out@.len() ==> vals@.contains(#[trigger] out@[k]),
        out@.len() <= vals@.len(),
{
    let ghost p = |n: u8| (below && n <= bound) || (!below && n >= bound);
    let mut out: Vec<u8> = Vec::new();
    for k in 0..vals.len()
        invariant
            p == (|n: u8| (below && n <= bound) || (!below && n >= bound)),
            out@ == vals@.take(k as int).filter(p),
            forall|i: int| 0 <= i < out@.len() ==> vals@.contains(#[trigger] out@[i]),
            out@.len() <= k,
    {
        let n = vals[k];
        proof {
            assert(vals@.take(k + 1).drop_last() == vals@.take(k as int));
            assert(vals@.take(k + 1).last() == n);
            reveal_with_fuel(Seq::filter, 1);
        }
        if (below && n <= bound) || (!below && n >= bound) {
            out.push(n);
            proof {
                assert(vals@[k as int] == n);
            }
        }
    }
    proof {
        assert(vals@.take(vals@.len() as int) == vals@);
    }
    out
}

/// Some other unsolved cell of `comp` loses a candidate to what `(r, c)` is
/// forced to.
pub open spec fn gap_cell_bites(s: HumanStr8ts, comp: Seq<(usize, usize)>, r: int, c: int) -> bool {
    exists|x: int, y: int| 0 <= x < 9 && 0 <= y < 9 && #[trigger] listed(comp, x, y) && (x != r || y != c) && !s.solved[x][y]
        && without_digits(s.candidates[x][y], gap_forced(s, comp.len() as int, r, c)) != s.candidates[x][y]
}

proof fn lemma_gap_cell_bites(a: HumanStr8ts, b: HumanStr8ts, comp: Seq<(usize, usize)>, r: int, c: int)
    requires
        b.solved == a.solved,
        forall|i: int, j: int| 0 <= i < 9 && 0 <= j < 9 ==> #[trigger] b.candidates[i][j] == if listed(comp, i, j) && (i != r || j != c)
            && !a.solved[i][j] {
            without_digits(a.candidates[i][j], gap_forced(a, comp.len() as int, r, c))
        } else {
            a.candidates[i][j]
        },
    ensures progress(a, b) <==> gap_cell_bites(a, comp, r, c),
{
    if progress(a, b) {
        let (x, y) = choose|x: int, y: int| 0 <= x < 9 && 0 <= y < 9 && #[trigger] moved(a, b, x, y);
        assert(listed(comp, x, y));
    }
    if gap_cell_bites(a, comp, r, c) {
        let (x, y) = choose|x: int, y: int| 0 <= x < 9 && 0 <= y < 9 && #[trigger] listed(comp, x, y) && (x != r || y != c) && !a.solved[x][y]
            && without_digits(a.candidates[x][y], gap_forced(a, comp.len() as int, r, c)) != a.candidates[x][y];
        assert(moved(a, b, x, y));
    }
}

/// The pair `i`, `j` of `comp` has a bridge digit that another unsolved cell
/// of `comp` still has.
pub open spec fn gap_pair_bites(s: HumanStr8ts, comp: Seq<(usize, usize)>, i: int, j: int) -> bool {
    match pair_bridge(s, comp.len() as int, comp[i], comp[j]) {
        Some(bridge) => exists|x: int, y: int| 0 <= x < 9 && 0 <= y < 9 && #[trigger] listed(comp, x, y)
            && (x, y) != (comp[i].0 as int, comp[i].1 as int) && (x, y) != (comp[j].0 as int, comp[j].1 as int) && !s.solved[x][y]
            && s.candidates[x][y] & !bit_of(bridge) != s.candidates[x][y],
        None => false,
    }
}

proof fn lemma_gap_pair_bites(a: HumanStr8ts, b: HumanStr8ts, comp: Seq<(usize, usize)>, i: int, j: int)
    requires
        b.solved == a.solved,
        forall|x: int, y: int| 0 <= x < 9 && 0 <= y < 9 ==> #[trigger] b.candidates[x][y] == match pair_bridge(
            a,
            comp.len() as int,
            comp[i],
            comp[j],
        ) {
            Some(bridge) => if listed(comp, x, y) && (x, y) != (comp[i].0 as int, comp[i].1 as int) && (x, y) != (
            comp[j].0 as int, comp[j].1 as int) && !a.solved[x][y] {
                a.candidates[x][y] & !bit_of(bridge)
            } else {
                a.candidates[x][y]
            },
            None => a.candidates[x][y],
        },
    ensures progress(a, b) <==> gap_pair_bites(a, comp, i, j),
{
    if progress(a, b) {
        let (x, y) = choose|x: int, y: int| 0 <= x < 9 && 0 <= y < 9 && #[trigger] moved(a, b, x, y);
        assert(listed(comp, x, y));
    }
    if gap_pair_bites(a, comp, i, j) {
        let bridge = pair_bridge(a, comp.len() as int, comp[i], comp[j])->0;
        let (x, y) = choose|x: int, y: int| 0 <= x < 9 && 0 <= y < 9 && #[trigger] listed(comp, x, y)
            && (x, y) != (comp[i].0 as int, comp[i].1 as int) && (x, y) != (comp[j].0 as int, comp[j].1 as int) && !a.solved[x][y]
            && a.candidates[x][y] & !bit_of(bridge) != a.candidates[x][y];
        assert(moved(a, b, x, y));
    }
}

/// The digits that a wide spread of candidates in the unsolved cell `(r, c)`
/// of a compartment of `size` cells forces it to: with two candidates, both
/// when each side of the spread keeps one; with three, the outer one that
/// stands alone on its side while the other side keeps more.
pub open spec fn gap_forced(s: HumanStr8ts, size: int, r: int, c: int) -> Seq<u8> {
    let v = digits_of(s.candidates[r][c]);
    if s.solved[r][c] || v.len() < 2 {
        Seq::empty()
    } else {
        let min_c = v[0];
        let max_c = v[v.len() - 1];
        let gap = max_c - min_c;
        if gap < size {
            Seq::empty()
        } else {
            let border = gap - size;
            let low = side(v, (min_c + border) as u8, true);
            let high = side(v, (max_c - border) as u8, false);
            if v.len() == 2 && low.len() == 1 && high.len() == 1 {
                seq![low[0], high[0]]
            } else if v.len() == 3 && low.len() == 1 && high.len() > 1 && low[0] == min_c {
                seq![min_c]
            } else if v.len() == 3 && high.len() == 1 && low.len() > 1 && high[0] == max_c {
                seq![max_c]
            } else {
                Seq::empty()
            }
        }
    }
}

/// `m` without the digits of `ds` (at most two).
pub open spec fn without_digits(m: u16, ds: Seq<u8>) -> u16 {
    if ds.len() == 0 {
        m
    } else if ds.len() == 1 {
        m & !bit_of(ds[0])
    } else {
        m & !bit_of(ds[0]) & !bit_of(ds[1])
    }
}

/// One unsolved cell with a wide spread of candidates: the digits at the far
/// ends that the cell must take leave the other cells.
fn gap_in_cell(s: &mut HumanStr8ts, comp: &Vec<(usize, usize)>, r: usize, c: usize) -> (eff: bool)
    requires old(s).wf(), comp_ok(old(s).is_black, comp@), r < 9, c < 9,
    ensures
        tracks(*old(s), *final(s), eff),
        final(s).solved == old(s).solved,
        final(s).numbers == old(s).numbers,
        forall|i: int, j: int| 0 <= i < 9 && 0 <= j < 9 ==> #[trigger] final(s).candidates[i][j] == if listed(comp@, i, j) && (i != r
            || j != c) && !old(s).solved[i][j] {
            without_digits(old(s).candidates[i][j], gap_forced(*old(s), comp@.len() as int, r as int, c as int))
        } else {
            old(s).candidates[i][j]
        },
        eff <==> gap_cell_bites(*old(s), comp@, r as int, c as int),
{
    let ghost s0 = *s;
    proof {
        lemma_tracks_refl(s0);
    }
    let size = comp.len();
    if s.solved[r][c] {
        proof {
            lemma_gap_cell_bites(s0, *s, comp@, r as int, c as int);
        }
        return false;
    }
    let cands = mask_values(s.candidates[r][c]);
    proof {
        lemma_digits_of(s.candidates[r as int][c as int]);
    }
    if cands.len() < 2 {
        proof {
            lemma_gap_cell_bites(s0, *s, comp@, r as int, c as int);
        }
        return false;
    }
    let min_c = cands[0];
    let max_c = cands[cands.len() - 1];
    let gap = max_c as i32 - min_c as i32;
    if gap < size as i32 {
        proof {
            lemma_gap_cell_bites(s0, *s, comp@, r as int, c as int);
        }
        return false;
    }
    let border = (gap - size as i32) as u8;
    let low_side = side_of(&cands, min_c + border, true);
    let high_side = side_of(&cands, max_c - border, false);
    proof {
        assert(cands@[0] < cands@[cands@.len() - 1]);

    }
    let mut eff = false;
    if cands.len() == 2 && low_side.len() == 1 && high_side.len() == 1 {
        let low_forced = low_side[0];
        let high_forced = high_side[0];
        proof {
            assert(cands@.contains(low_side@[0]));
            assert(cands@.contains(high_side@[0]));
        }
        let e1 = strike_others_both(s, comp, r, c, low_forced, high_forced);
        eff = e1;
    } else if cands.len() == 3 {
        if low_side.len() == 1 && high_side.len() > 1 && low_side[0] == min_c {
            eff = strike_others(s, comp, r, c, min_c);
        } else if high_side.len() == 1 && low_side.len() > 1 && high_side[0] == max_c {
            eff = strike_others(s, comp, r, c, max_c);
        }
    }
    proof {
        lemma_gap_cell_bites(s0, *s, comp@, r as int, c as int);
    }
    eff
}

/// Removes `a` and then `b` from the other unsolved cells of the compartment,
/// cell by cell.
fn strike_others_both(s: &mut HumanStr8ts, comp: &Vec<(usize, usize)>, r: usize, c: usize, a: u8, b: u8) -> (eff: bool)
    requires old(s).wf(), comp_ok(old(s).is_black, comp@), is_digit(a), is_digit(b),
    ensures
        tracks(*old(s), *final(s), eff),
        final(s).solved == old(s).solved,
        final(s).numbers == old(s).numbers,
        forall|i: int, j: int| 0 <= i < 9 && 0 <= j < 9 ==> #[trigger] final(s).candidates[i][j] == if listed(comp@, i, j) && (i != r
            || j != c) && !old(s).solved[i][j] {
            old(s).candidates[i][j] & !bit_of(a) & !bit_of(b)
        } else {
            old(s).candidates[i][j]
        },
{
    let ghost s0 = *s;
    let mut eff = false;
    proof {
        lemma_tracks_refl(s0);
    }
    for j in 0..comp.len()
        invariant
            s0 == *old(s), s0.wf(),
            tracks(s0, *s, eff),
            comp_ok(s0.is_black, comp@),
            is_digit(a), is_digit(b),
            s.solved == s0.solved,
            s.numbers == s0.numbers,
            forall|x: int, y: int| 0 <= x < 9 && 0 <= y < 9 ==> #[trigger] s.candidates[x][y] == if listed(comp@.take(j as int), x, y) && (x
                != r || y != c) && !s0.solved[x][y] {
                s0.candidates[x][y] & !bit_of(a) & !bit_of(b)
            } else {
                s0.candidates[x][y]
            },
    {
        let (r2, c2) = comp[j];
        proof {
            assert(comp@[j as int] == (r2, c2));
        }
        let ghost start = *s;
        if (r2 != r || c2 != c) && !s.solved[r2][c2] {
            if mask_has(s.candidates[r2][c2], a) {
                let ghost before = *s;
                rem_candidate(s, r2, c2, a);
                proof {
                    lemma_tracks_chain(s0, before, *s, eff, true);
                }
                eff = true;
            }
            if mask_has(s.candidates[r2][c2], b) {
                let ghost before = *s;
                rem_candidate(s, r2, c2, b);
                proof {
                    lemma_tracks_chain(s0, before, *s, eff, true);
                }
                eff = true;
            }
        }
        proof {
            assert forall|x: int, y: int| 0 <= x < 9 && 0 <= y < 9 implies #[trigger] s.candidates[x][y] == if listed(comp@.take(j + 1), x, y)
                && (x != r || y != c) && !s0.solved[x][y] {
                s0.candidates[x][y] & !bit_of(a) & !bit_of(b)
            } else {
                s0.candidates[x][y]
            } by {
                lemma_listed_take(comp@, j as int, x, y);
                let m = start.candidates[x][y];
                let m0 = s0.candidates[x][y];
                let ba = bit_of(a);
                let bb = bit_of(b);
                lemma_clear_bit(m, ba);
                lemma_clear_bit(m & !ba, bb);
                lemma_clear_bit(m, bb);
                let mm = (m0 & !ba) & !bb;
                assert(mm & ba == 0 && mm & bb == 0) by (bit_vector)
                    requires mm == (m0 & !ba) & !bb;
                if listed(comp@.take(j as int), x, y) && (x != r || y != c) && !s0.solved[x][y] {
                    assert(m == mm);
                } else if x == r2 && y == c2 && (x != r || y != c) && !s0.solved[x][y] {
                    assert(m == m0);
                }
            }
        }
    }
    proof {
        assert(comp@.take(comp@.len() as int) == comp@);
    }
    eff
}

/// For two unsolved cells with two candidates each, sharing one digit that
/// lies strictly between their other digits, spread at least `size` apart:
/// that shared digit, which then cannot stand elsewhere in the compartment.
pub open spec fn pair_bridge(s: HumanStr8ts, size: int, p1: (usize, usize), p2: (usize, usize)) -> Option<u8> {
    let c1 = s.candidates[p1.0 as int][p1.1 as int];
    let c2 = s.candidates[p2.0 as int][p2.1 as int];
    let common = c1 & c2;
    if s.solved[p1.0 as int][p1.1 as int] || s.solved[p2.0 as int][p2.1 as int] || popcount(c1) != 2 || popcount(c2) != 2
        || popcount(common) != 1 || popcount(c1 & !common) != 1 || popcount(c2 & !common) != 1 {
        None
    } else {
        let bridge = digits_of(common)[0];
        let d1 = digits_of(c1 & !common)[0];
        let d2 = digits_of(c2 & !common)[0];
        let low = if d1 > bridge { d2 } else { d1 };
        let high = if d1 > bridge { d1 } else { d2 };
        if low < bridge && bridge < high && high - low >= size {
            Some(bridge)
        } else {
            None
        }
    }
}

/// Two unsolved cells with two candidates each that share one digit lying
/// between their other digits: when those are too far apart for the
/// compartment, the shared digit must be in one of the two cells.
fn gap_in_pair(s: &mut HumanStr8ts, comp: &Vec<(usize, usize)>, i: usize, j: usize) -> (eff: bool)
    requires old(s).wf(), comp_ok(old(s).is_black, comp@), i < comp@.len(), j < comp@.len(),
    ensures
        tracks(*old(s), *final(s), eff),
        final(s).solved == old(s).solved,
        final(s).numbers == old(s).numbers,
        forall|x: int, y: int| 0 <= x < 9 && 0 <= y < 9 ==> #[trigger] final(s).candidates[x][y] == match pair_bridge(
            *old(s),
            comp@.len() as int,
            comp@[i as int],
            comp@[j as int],
        ) {
            Some(bridge) => if listed(comp@, x, y) && (x, y) != (comp@[i as int].0 as int, comp@[i as int].1 as int) && (x, y) != (
            comp@[j as int].0 as int, comp@[j as int].1 as int) && !old(s).solved[x][y] {
                old(s).candidates[x][y] & !bit_of(bridge)
            } else {
                old(s).candidates[x][y]
            },
            None => old(s).candidates[x][y],
        },
        eff <==> gap_pair_bites(*old(s), comp@, i as int, j as int),
{
    let ghost s0 = *s;
    proof {
        lemma_tracks_refl(s0);
    }
    let size = comp.len();
    let (r1, c1) = comp[i];
    let (r2, c2) = comp[j];
    proof {
        assert(comp@[i as int] == (r1, c1));
        assert(comp@[j as int] == (r2, c2));
    }
    if s.solved[r1][c1] || s.solved[r2][c2] {
        proof {
            lemma_gap_pair_bites(s0, *s, comp@, i as int, j as int);
        }
        return false;
    }
    let cands1 = s.candidates[r1][c1];
    let cands2 = s.candidates[r2][c2];
    if count_digits(cands1) != 2 || count_digits(cands2) != 2 {
        proof {
            lemma_gap_pair_bites(s0, *s, comp@, i as int, j as int);
        }
        return false;
    }
    let common = cands1 & cands2;
    if count_digits(common) != 1 {
        proof {
            lemma_gap_pair_bites(s0, *s, comp@, i as int, j as int);
        }
        return false;
    }
    let bridge = match mask_single(common) {
        Some(v) => v,
        None => {
            proof {
            lemma_gap_pair_bites(s0, *s, comp@, i as int, j as int);
        }
        return false;
        },
    };
    let mut low = match mask_single(cands1 & !common) {
        Some(v) => v,
        None => {
            proof {
            lemma_gap_pair_bites(s0, *s, comp@, i as int, j as int);
        }
        return false;
        },
    };
    let mut high = match mask_single(cands2 & !common) {
        Some(v) => v,
        None => {
            proof {
            lemma_gap_pair_bites(s0, *s, comp@, i as int, j as int);
        }
        return false;
        },
    };
    let mut a = (r1, c1);
    let mut b = (r2, c2);
    if low > bridge {
        let t = low;
        low = high;
        high = t;
        let u = a;
        a = b;
        b = u;
    }
    if !(low < bridge && bridge < high) {
        proof {
            lemma_gap_pair_bites(s0, *s, comp@, i as int, j as int);
        }
        return false;
    }
    let gap = high as i32 - low as i32;
    let mut eff = false;
    if gap >= size as i32 {
        proof {
            assert(pair_bridge(s0, size as int, comp@[i as int], comp@[j as int]) == Some(bridge));
        }
        let mut k: usize = 0;
        while k < comp.len()
            invariant
                s0 == *old(s), s0.wf(),
                tracks(s0, *s, eff),
                comp_ok(s0.is_black, comp@),
                is_digit(bridge),
                k <= comp@.len(),
                a.0 < 9 && a.1 < 9 && b.0 < 9 && b.1 < 9,
                (a == (r1, c1) && b == (r2, c2)) || (a == (r2, c2) && b == (r1, c1)),
                s.solved == s0.solved,
                s.numbers == s0.numbers,
                forall|x: int, y: int| 0 <= x < 9 && 0 <= y < 9 ==> #[trigger] s.candidates[x][y] == if listed(comp@.take(k as int), x, y)
                    && (x, y) != (r1 as int, c1 as int) && (x, y) != (r2 as int, c2 as int) && !s0.solved[x][y] {
                    s0.candidates[x][y] & !bit_of(bridge)
                } else {
                    s0.candidates[x][y]
                },
            decreases comp@.len() - k,
        {
            let (r, c) = comp[k];
            proof {
                assert(comp@[k as int] == (r, c));
            }
            let ghost before = *s;
            if (r != a.0 || c != a.1) && (r != b.0 || c != b.1) && !s.solved[r][c] && mask_has(s.candidates[r][c], bridge) {
                rem_candidate(s, r, c, bridge);
                proof {
                    lemma_tracks_chain(s0, before, *s, eff, true);
                }
                eff = true;
            }
            proof {
                assert forall|x: int, y: int| 0 <= x < 9 && 0 <= y < 9 implies #[trigger] s.candidates[x][y] == if listed(comp@.take(k + 1), x, y)
                    && (x, y) != (r1 as int, c1 as int) && (x, y) != (r2 as int, c2 as int) && !s0.solved[x][y] {
                    s0.candidates[x][y] & !bit_of(bridge)
                } else {
                    s0.candidates[x][y]
                } by {
                    lemma_listed_take(comp@, k as int, x, y);
                    lemma_clear_bit(s0.candidates[x][y], bit_of(bridge));
                    lemma_clear_bit(before.candidates[x][y], bit_of(bridge));
                }
            }
            k = k + 1;
        }
        proof {
            assert(comp@.take(comp@.len() as int) == comp@);
        }
    }
    proof {
        lemma_gap_pair_bites(s0, *s, comp@, i as int, j as int);
    }
    eff
}

/// Mind the gap removes something from the compartment: through one of its
/// cells, or through one of its pairs of cells.
pub open spec fn mindgap_bites(s: HumanStr8ts, comp: Seq<(usize, usize)>) -> bool {
    ||| exists|k: int| 0 <= k < comp.len() && #[trigger] gap_cell_bites(s, comp, comp[k].0 as int, comp[k].1 as int)
    ||| exists|i: int, j: int| 0 <= i < j < comp.len() && #[trigger] gap_pair_bites(s, comp, i, j)
}

/// Mind the gap: digits too far apart for a compartment split it; the digits
/// a cell is forced to, by a wide spread of candidates, leave the other cells.
#[verifier::spinoff_prover]
#[verifier::rlimit(60)]
pub(crate) fn use_mind_the_gap(s: &mut HumanStr8ts, comp_size: usize) -> (res: i32)
    requires old(s).wf(), 1 <= comp_size <= 9,
    ensures
        strategy_done(*old(s), *final(s), res, mindgap_h(comp_size as int) as i32),
        res == 0 <==> !exists|i: int| 0 <= i < comps_view(old(s).row_compartments).len() + comps_view(old(s).col_compartments).len()
            && (comps_view(old(s).row_compartments) + comps_view(old(s).col_compartments))[i].len() == comp_size && #[trigger] mindgap_bites(
            *old(s),
            (comps_view(old(s).row_compartments) + comps_view(old(s).col_compartments))[i],
        ),
{
    let ghost s0 = *s;
    let mut effective = false;
    proof {
        lemma_tracks_refl(s0);
    }
    let comps = all_compartments(s);
    let ghost all = comps_view(comps);
    let mut ci: usize = 0;
    while ci < comps.len()
        invariant
            s0 == *old(s), s0.wf(), ci <= comps@.len(),
            tracks(s0, *s, effective),
            !effective ==> *s == s0,
            all == comps_view(comps), all.len() == comps@.len(),
            forall|k: int| 0 <= k < comps@.len() ==> comp_ok(s0.is_black, #[trigger] comps@[k]@),
            effective <==> exists|i: int| 0 <= i < ci && all[i].len() == comp_size && #[trigger] mindgap_bites(s0, all[i]),
        decreases comps@.len() - ci,
    {
        let comp = &comps[ci];
        proof {
            assert(comp_ok(s0.is_black, comps@[ci as int]@));
            assert(all[ci as int] == comp@);
        }
        let ghost eff0 = effective;
        let size = comp.len();
        if size == comp_size {
            let mut k: usize = 0;
            while k < comp.len()
                invariant
                    s0 == *old(s), s0.wf(), k <= comp@.len(),
                    tracks(s0, *s, effective),
                    !effective ==> *s == s0,
                    comp_ok(s0.is_black, comp@),
                    effective <==> eff0 || exists|q: int| 0 <= q < k && #[trigger] gap_cell_bites(s0, comp@, comp@[q].0 as int, comp@[q].1 as int),
                decreases comp@.len() - k,
            {
                let (r, c) = comp[k];
                proof {
                    assert(comp@[k as int] == (r, c));
                }
                let ghost before = *s;
                let ghost eff_before = effective;
                let e = gap_in_cell(s, comp, r, c);
                proof {
                    lemma_tracks_chain(s0, before, *s, effective, e);
                    if !e {
                        lemma_no_progress(before, *s);
                    }
                }
                if e {
                    effective = true;
                }
                proof {
                    assert(effective <==> eff0 || exists|q: int| 0 <= q < k + 1 && #[trigger] gap_cell_bites(s0, comp@, comp@[q].0 as int, comp@[q].1 as int)) by {
                        if exists|q: int| 0 <= q < k + 1 && #[trigger] gap_cell_bites(s0, comp@, comp@[q].0 as int, comp@[q].1 as int) {
                            let q = choose|q: int| 0 <= q < k + 1 && #[trigger] gap_cell_bites(s0, comp@, comp@[q].0 as int, comp@[q].1 as int);
                            if q < k {
                                assert(exists|q: int| 0 <= q < k && #[trigger] gap_cell_bites(s0, comp@, comp@[q].0 as int, comp@[q].1 as int));
                            }
                        }
                    }
                }
                k = k + 1;
            }
            let ghost eff1 = effective;
            let mut i: usize = 0;
            while i < comp.len()
                invariant
                    s0 == *old(s), s0.wf(), i <= comp@.len(),
                    tracks(s0, *s, effective),
                    !effective ==> *s == s0,
                    comp_ok(s0.is_black, comp@),
                    effective <==> eff1 || exists|a: int, b: int| 0 <= a < i && a < b < comp@.len() && #[trigger] gap_pair_bites(s0, comp@, a, b),
                decreases comp@.len() - i,
            {
                let mut j: usize = i + 1;
                while j < comp.len()
                    invariant
                        s0 == *old(s), s0.wf(), i < comp@.len(), i < j <= comp@.len(),
                        tracks(s0, *s, effective),
                        !effective ==> *s == s0,
                        comp_ok(s0.is_black, comp@),
                        effective <==> eff1 || (exists|a: int, b: int| 0 <= a < i && a < b < comp@.len() && #[trigger] gap_pair_bites(s0, comp@, a, b))
                            || (exists|b: int| i < b < j && #[trigger] gap_pair_bites(s0, comp@, i as int, b)),
                    decreases comp@.len() - j,
                {
                    let ghost before = *s;
                    let ghost eff_before = effective;
                    let e = gap_in_pair(s, comp, i, j);
                    proof {
                        lemma_tracks_chain(s0, before, *s, effective, e);
                        if !e {
                            lemma_no_progress(before, *s);
                        }
                    }
                    if e {
                        effective = true;
                    }
                    proof {
                        assert(effective <==> eff1 || (exists|a: int, b: int| 0 <= a < i && a < b < comp@.len() && #[trigger] gap_pair_bites(s0, comp@, a, b))
                            || (exists|b: int| i < b < j + 1 && #[trigger] gap_pair_bites(s0, comp@, i as int, b))) by {
                            if exists|b: int| i < b < j + 1 && #[trigger] gap_pair_bites(s0, comp@, i as int, b) {
                                let b = choose|b: int| i < b < j + 1 && #[trigger] gap_pair_bites(s0, comp@, i as int, b);
                                if b < j {
                                    assert(exists|b: int| i < b < j && #[trigger] gap_pair_bites(s0, comp@, i as int, b));
                                }
                            }
                        }
                    }
                    j = j + 1;
                }
                proof {
                    assert(effective <==> eff1 || exists|a: int, b: int| 0 <= a < i + 1 && a < b < comp@.len() && #[trigger] gap_pair_bites(s0, comp@, a, b)) by {
                        if exists|a: int, b: int| 0 <= a < i + 1 && a < b < comp@.len() && #[trigger] gap_pair_bites(s0, comp@, a, b) {
                            let (a, b) = choose|a: int, b: int| 0 <= a < i + 1 && a < b < comp@.len() && #[trigger] gap_pair_bites(s0, comp@, a, b);
                            if a == i {
                                assert(exists|b: int| i < b < j && #[trigger] gap_pair_bites(s0, comp@, i as int, b));
                            }
                        }
                    }
                }
                i = i + 1;
            }
            proof {
                assert(effective <==> eff0 || mindgap_bites(s0, comp@));
            }
        }
        proof {
            assert(effective <==> exists|i: int| 0 <= i < ci + 1 && all[i].len() == comp_size && #[trigger] mindgap_bites(s0, all[i])) by {
                if exists|i: int| 0 <= i < ci + 1 && all[i].len() == comp_size && #[trigger] mindgap_bites(s0, all[i]) {
                    let i = choose|i: int| 0 <= i < ci + 1 && all[i].len() == comp_size && #[trigger] mindgap_bites(s0, all[i]);
                    if i < ci {
                        assert(exists|i: int| 0 <= i < ci && all[i].len() == comp_size && #[trigger] mindgap_bites(s0, all[i]));
                    }
                }
            }
        }
        ci = ci + 1;
    }
    proof {
        lemma_strategy_done(s0, *s, effective, mindgap_h(comp_size as int) as i32);
    }
    if effective {
        mindgap_hardness(comp_size)
    } else {
        0
    }
}


/// `m` gives every cell its own value, among the cell's candidates.
pub open spec fn assigns(cands: Seq<u16>, vals: Seq<u8>, m: Seq<Option<usize>>) -> bool {
    &&& m.len() == cands.len()
    &&& forall|u: int| 0 <= u < m.len() ==> (#[trigger] m[u]) is Some && m[u]->0 < vals.len() && has_digit(cands[u], vals[m[u]->0 as int])
    &&& forall|u1: int, u2: int| 0 <= u1 < m.len() && 0 <= u2 < m.len() && u1 != u2 ==> (#[trigger] m[u1])->0 != (#[trigger] m[u2])->0
}

/// Whether the cells (by their candidate masks) can take the values one each.
fn has_perfect_matching_for_values(cell_candidates: &Vec<u16>, range_values: &Vec<u8>) -> (r: bool)
    requires
        cell_candidates@.len() <= 9,
        forall|j: int| 0 <= j < range_values@.len() ==> is_digit(#[trigger] range_values@[j]),
    ensures
        r == (cell_candidates@.len() == range_values@.len() && exists|m: Seq<Option<usize>>| assigns(cell_candidates@, range_values@, m)),
{
    let n = cell_candidates.len();
    if n != range_values.len() {
        return false;
    }
    if n == 0 {
        proof {
            assert(assigns(cell_candidates@, range_values@, Seq::<Option<usize>>::empty()));
        }
        return true;
    }
    let mut left_adj: Vec<Vec<usize>> = Vec::new();
    for i in 0..n
        invariant
            n == cell_candidates@.len(), n == range_values@.len(), n <= 9,
            left_adj@.len() == i,
            forall|u: int, k: int| 0 <= u < left_adj@.len() && 0 <= k < left_adj@[u]@.len() ==> #[trigger] left_adj@[u]@[k] < n
                && has_digit(cell_candidates@[u], range_values@[left_adj@[u]@[k] as int]),
            forall|u: int, j: int| 0 <= u < left_adj@.len() && 0 <= j < n && has_digit(cell_candidates@[u], range_values@[j])
                ==> #[trigger] left_adj@[u]@.contains(j as usize),
            forall|j: int| 0 <= j < range_values@.len() ==> is_digit(#[trigger] range_values@[j]),
    {
        let cand_mask = cell_candidates[i];
        let mut row: Vec<usize> = Vec::new();
        for j in 0..n
            invariant
                n == cell_candidates@.len(), n == range_values@.len(), i < n,
                cand_mask == cell_candidates@[i as int],
                forall|k: int| 0 <= k < row@.len() ==> #[trigger] row@[k] < n && has_digit(cand_mask, range_values@[row@[k] as int]),
                forall|j2: int| 0 <= j2 < j && has_digit(cand_mask, range_values@[j2]) ==> #[trigger] row@.contains(j2 as usize),
                forall|j: int| 0 <= j < range_values@.len() ==> is_digit(#[trigger] range_values@[j]),
        {
            let ghost row0 = row@;
            if mask_has(cand_mask, range_values[j]) {
                row.push(j);
                proof {
                    assert(row@[row@.len() - 1] == j);
                    assert forall|j2: int| 0 <= j2 < j + 1 && has_digit(cand_mask, range_values@[j2]) implies #[trigger] row@.contains(
                        j2 as usize,
                    ) by {
                        if j2 < j {
                            assert(row0.contains(j2 as usize));
                            let k = choose|k: int| 0 <= k < row0.len() && row0[k] == j2 as usize;
                            assert(row@[k] == j2 as usize);
                        }
                    }
                }
            }
        }
        let ghost adj0 = left_adj@;
        left_adj.push(row);
        proof {
            assert forall|u: int, j: int| 0 <= u < left_adj@.len() && 0 <= j < n && has_digit(cell_candidates@[u], range_values@[j])
                implies #[trigger] left_adj@[u]@.contains(j as usize) by {
                if u < i {
                    assert(left_adj@[u] == adj0[u]);
                }
            }
            assert forall|u: int, k: int| 0 <= u < left_adj@.len() && 0 <= k < left_adj@[u]@.len() implies #[trigger] left_adj@[u]@[k] < n
                && has_digit(cell_candidates@[u], range_values@[left_adj@[u]@[k] as int]) by {
                if u == i {
                    assert(left_adj@[u]@ == row@);
                }
            }
        }
    }
    proof {
        assert(adj_in_range(left_adj@, n as nat));
    }
    let r = has_perfect_matching(&left_adj, n);
    proof {
        if r {
            let m = choose|m: Seq<Option<usize>>|
                valid_matching(left_adj@, n as nat, m) && forall|u: int| 0 <= u < m.len() ==> (#[trigger] m[u]) is Some;
            assert forall|u: int| 0 <= u < m.len() implies (#[trigger] m[u]) is Some && m[u]->0 < range_values@.len() && has_digit(cell_candidates@[u], range_values@[m[u]->0 as int]) by {
                let k = choose|k: int| 0 <= k < left_adj@[u]@.len() && left_adj@[u]@[k] == m[u]->0;
                assert(left_adj@[u]@[k] < n);
            }
            assert(assigns(cell_candidates@, range_values@, m));
        }
        if exists|m: Seq<Option<usize>>| assigns(cell_candidates@, range_values@, m) {
            let m = choose|m: Seq<Option<usize>>| assigns(cell_candidates@, range_values@, m);
            assert forall|u: int| 0 <= u < m.len() && (#[trigger] m[u]) is Some implies m[u]->0 < n && left_adj@[u]@.contains(m[u]->0) by {
                let j = m[u]->0 as int;
                assert(has_digit(cell_candidates@[u], range_values@[j]));
                assert(left_adj@[u]@.contains(j as usize));
            }
            assert(valid_matching(left_adj@, n as nat, m));
            assert(perfect_matching_exists(left_adj@, n as nat));
        }
    }
    r
}

/// The candidate masks of the listed cells.
fn masks_of(s: &HumanStr8ts, cells: &Vec<(usize, usize)>) -> (out: Vec<u16>)
    requires on_board(cells@),
    ensures
        out@.len() == cells@.len(),
        forall|k: int| 0 <= k < out@.len() ==> #[trigger] out@[k] == s.candidates[cells@[k].0 as int][cells@[k].1 as int],
{
    let mut out: Vec<u16> = Vec::new();
    for k in 0..cells.len()
        invariant
            on_board(cells@),
            out@.len() == k,
            forall|i: int| 0 <= i < out@.len() ==> #[trigger] out@[i] == s.candidates[cells@[i].0 as int][cells@[i].1 as int],
    {
        let (r, c) = cells[k];
        proof {
            assert(cells@[k as int] == (r, c));
        }
        out.push(s.candidates[r][c]);
    }
    out
}

/// The unsolved cells of a compartment, in order.
fn unsolved_cells(s: &HumanStr8ts, comp: &Vec<(usize, usize)>) -> (out: Vec<(usize, usize)>)
    requires comp_ok(s.is_black, comp@),
    ensures
        out@ == comp@.filter(unsolved_cell(*s)),
        out@.len() <= comp@.len(),
        on_board(out@),
        forall|k: int| 0 <= k < out@.len() ==> !s.solved[(#[trigger] out@[k]).0 as int][out@[k].1 as int] && comp@.contains(out@[k]),
{
    let ghost p = unsolved_cell(*s);
    let mut out: Vec<(usize, usize)> = Vec::new();
    for k in 0..comp.len()
        invariant
            comp_ok(s.is_black, comp@),
            p == unsolved_cell(*s),
            out@ == comp@.take(k as int).filter(p),
            out@.len() <= k,
            on_board(out@),
            forall|i: int| 0 <= i < out@.len() ==> !s.solved[(#[trigger] out@[i]).0 as int][out@[i].1 as int] && comp@.contains(out@[i]),
    {
        let (r, c) = comp[k];
        proof {
            assert(comp@[k as int] == (r, c));
            assert(comp@.take(k + 1).drop_last() == comp@.take(k as int));
            assert(comp@.take(k + 1).last() == (r, c));
            reveal_with_fuel(Seq::filter, 1);
        }
        if !s.solved[r][c] {
            out.push((r, c));
        }
    }
    proof {
        assert(comp@.take(comp@.len() as int) == comp@);
    }
    out
}

/// Every solved cell of `comp` holds a digit of `start ..= end`.
pub open spec fn placed_within(s: HumanStr8ts, comp: Seq<(usize, usize)>, start: u8, end: u8) -> bool {
    forall|k: int| 0 <= k < comp.len() && #[trigger] s.solved[comp[k].0 as int][comp[k].1 as int] ==> start <= s.numbers[comp[k].0 as int][comp[k].1 as int] <= end
}

/// The digits of `start ..= end` that no solved cell of `comp` holds, in order.
pub open spec fn free_values(s: HumanStr8ts, comp: Seq<(usize, usize)>, start: u8, end: u8) -> Seq<u8> {
    if end < start {
        Seq::empty()
    } else {
        Seq::new((end - start + 1) as nat, |k: int| (start + k) as u8).filter(|n: u8| !comp_placed(s, comp, n))
    }
}

/// The candidate masks of the listed cells.
pub open spec fn cell_masks(s: HumanStr8ts, cells: Seq<(usize, usize)>) -> Seq<u16> {
    Seq::new(cells.len(), |k: int| s.candidates[cells[k].0 as int][cells[k].1 as int])
}

/// The cells, by their masks, can take the values one each.
pub open spec fn can_assign(masks: Seq<u16>, vals: Seq<u8>) -> bool {
    masks.len() == vals.len() && exists|m: Seq<Option<usize>>| assigns(masks, vals, m)
}

/// Cell `i` can take `vals[k]` while the others take the rest one each.
pub open spec fn assignable(masks: Seq<u16>, vals: Seq<u8>, i: int, k: int) -> bool {
    has_digit(masks[i], vals[k]) && can_assign(masks.update(i, bit_of(vals[k])), vals)
}

/// `acc` with the bits of those of the first `k` values that cell `i` can take.
pub open spec fn marked(acc: u16, masks: Seq<u16>, vals: Seq<u8>, i: int, k: int) -> u16
    decreases k,
{
    if k <= 0 {
        acc
    } else if assignable(masks, vals, i, k - 1) {
        marked(acc, masks, vals, i, k - 1) | bit_of(vals[k - 1])
    } else {
        marked(acc, masks, vals, i, k - 1)
    }
}

/// For one straight `start..=end`: when the unsolved cells can take its free
/// values one each, marks every value a cell can take in such an assignment.
fn mark_assignable(
    s: &HumanStr8ts,
    comp: &Vec<(usize, usize)>,
    unsolved: &Vec<(usize, usize)>,
    start: u8,
    end: u8,
    valid: &mut Vec<u16>,
)
    requires
        comp_ok(s.is_black, comp@),
        on_board(unsolved@),
        unsolved@.len() <= 9,
        old(valid)@.len() == unsolved@.len(),
        1 <= start <= 9, end <= 9,
    ensures
        final(valid)@.len() == unsolved@.len(),
        ({
            let vals = free_values(*s, comp@, start, end);
            let masks = cell_masks(*s, unsolved@);
            if placed_within(*s, comp@, start, end) && can_assign(masks, vals) {
                forall|i: int| 0 <= i < unsolved@.len() ==> #[trigger] final(valid)@[i] == marked(old(valid)@[i], masks, vals, i, vals.len() as int)
            } else {
                final(valid)@ == old(valid)@
            }
        }),
{
    let ghost v0 = valid@;
    let mut solved_values: Vec<u8> = Vec::new();
    let mut k: usize = 0;
    while k < comp.len()
        invariant
            comp_ok(s.is_black, comp@), valid@ == v0, v0.len() == unsolved@.len(), k <= comp@.len(),
            forall|x: int| 0 <= x < k && #[trigger] s.solved[comp@[x].0 as int][comp@[x].1 as int] ==> start <= s.numbers[comp@[x].0 as int][comp@[x].1 as int] <= end,
            forall|n: u8| #[trigger] solved_values@.contains(n) <==> exists|x: int| 0 <= x < k && #[trigger] s.solved[comp@[x].0 as int][comp@[x].1 as int] && s.numbers[comp@[x].0 as int][comp@[x].1 as int] == n,
        decreases comp@.len() - k,
    {
        let (r, c) = comp[k];
        proof {
            assert(comp@[k as int] == (r, c));
        }
        if s.solved[r][c] {
            let v = s.numbers[r][c];
            if v < start || v > end {
                proof {
                    assert(!placed_within(*s, comp@, start, end));
                }
                return;
            }
            let ghost sv = solved_values@;
            solved_values.push(v);
            proof {
                assert forall|n: u8| #[trigger] solved_values@.contains(n) <==> sv.contains(n) || n == v by {
                    if solved_values@.contains(n) {
                        let x = choose|x: int| 0 <= x < solved_values@.len() && solved_values@[x] == n;
                        if x < sv.len() {
                            assert(sv[x] == n);
                        }
                    }
                    if sv.contains(n) {
                        let x = choose|x: int| 0 <= x < sv.len() && sv[x] == n;
                        assert(solved_values@[x] == n);
                    }
                    if n == v {
                        assert(solved_values@[sv.len() as int] == n);
                    }
                }
            }
        }
        proof {
            assert forall|n: u8| #[trigger] solved_values@.contains(n) <==> exists|x: int| 0 <= x < k + 1 && #[trigger] s.solved[comp@[x].0 as int][comp@[x].1 as int] && s.numbers[comp@[x].0 as int][comp@[x].1 as int] == n by {
                if exists|x: int| 0 <= x < k + 1 && #[trigger] s.solved[comp@[x].0 as int][comp@[x].1 as int] && s.numbers[comp@[x].0 as int][comp@[x].1 as int] == n {
                    let x = choose|x: int| 0 <= x < k + 1 && #[trigger] s.solved[comp@[x].0 as int][comp@[x].1 as int] && s.numbers[comp@[x].0 as int][comp@[x].1 as int] == n;
                    if x < k {
                        assert(exists|x: int| 0 <= x < k && #[trigger] s.solved[comp@[x].0 as int][comp@[x].1 as int] && s.numbers[comp@[x].0 as int][comp@[x].1 as int] == n);
                    }
                }
            }
        }
        k = k + 1;
    }
    proof {
        assert forall|n: u8| #[trigger] solved_values@.contains(n) <==> comp_placed(*s, comp@, n) by {
            if comp_placed(*s, comp@, n) {
                let x = choose|x: int| 0 <= x < comp@.len() && #[trigger] s.solved[comp@[x].0 as int][comp@[x].1 as int] && s.numbers[comp@[x].0 as int][comp@[x].1 as int] == n;
                assert(exists|x: int| 0 <= x < k && #[trigger] s.solved[comp@[x].0 as int][comp@[x].1 as int] && s.numbers[comp@[x].0 as int][comp@[x].1 as int] == n);
            }
        }
        assert(placed_within(*s, comp@, start, end));
    }
    let ghost p = |n: u8| !comp_placed(*s, comp@, n);
    let mut available_values: Vec<u8> = Vec::new();
    let mut n = start;
    while n <= end
        invariant
            1 <= start <= n, end <= 9, n <= 10, n <= end + 1 || n == start,
            valid@ == v0,
            p == (|n: u8| !comp_placed(*s, comp@, n)),
            forall|d: u8| #[trigger] solved_values@.contains(d) <==> comp_placed(*s, comp@, d),
            forall|j: int| 0 <= j < available_values@.len() ==> is_digit(#[trigger] available_values@[j]),
            available_values@.len() <= n - start,
            available_values@ == Seq::new((n - start) as nat, |k: int| (start + k) as u8).filter(p),
        decreases 10 - n,
    {
        let ghost prev = available_values@;
        proof {
            assert(Seq::new((n + 1 - start) as nat, |k: int| (start + k) as u8) =~= Seq::new((n - start) as nat, |k: int| (start + k) as u8).push(n));
            Seq::new((n - start) as nat, |k: int| (start + k) as u8).lemma_filter_push(n, p);
        }
        if !contains_value(&solved_values, n) {
            available_values.push(n);
        }
        n = n + 1;
    }
    proof {
        if end >= start {
            assert(n == end + 1);
            assert(available_values@ == free_values(*s, comp@, start, end));
        } else {
            assert(available_values@ =~= free_values(*s, comp@, start, end));
        }
    }
    let n_unsolved = unsolved.len();
    if available_values.len() != n_unsolved {
        return;
    }
    let cell_candidates = masks_of(s, unsolved);
    proof {
        assert(cell_candidates@ =~= cell_masks(*s, unsolved@));
    }
    if !has_perfect_matching_for_values(&cell_candidates, &available_values) {
        return;
    }
    let ghost vals = available_values@;
    let ghost masks = cell_candidates@;
    let mut i: usize = 0;
    while i < n_unsolved
        invariant
            n_unsolved == unsolved@.len(), n_unsolved <= 9, i <= n_unsolved,
            valid@.len() == n_unsolved, v0.len() == n_unsolved,
            cell_candidates@ == masks, available_values@ == vals,
            masks.len() == n_unsolved,
            forall|j: int| 0 <= j < vals.len() ==> is_digit(#[trigger] vals[j]),
            forall|x: int| 0 <= x < i ==> #[trigger] valid@[x] == marked(v0[x], masks, vals, x, vals.len() as int),
            forall|x: int| i <= x < n_unsolved ==> #[trigger] valid@[x] == v0[x],
        decreases n_unsolved - i,
    {
        let mut k: usize = 0;
        while k < available_values.len()
            invariant
                n_unsolved == unsolved@.len(), n_unsolved <= 9, i < n_unsolved, k <= vals.len(),
                valid@.len() == n_unsolved, v0.len() == n_unsolved,
                cell_candidates@ == masks, available_values@ == vals,
                masks.len() == n_unsolved,
                forall|j: int| 0 <= j < vals.len() ==> is_digit(#[trigger] vals[j]),
                forall|x: int| 0 <= x < i ==> #[trigger] valid@[x] == marked(v0[x], masks, vals, x, vals.len() as int),
                forall|x: int| i < x < n_unsolved ==> #[trigger] valid@[x] == v0[x],
                valid@[i as int] == marked(v0[i as int], masks, vals, i as int, k as int),
            decreases vals.len() - k,
        {
            let val = available_values[k];
            if mask_has(cell_candidates[i], val) {
                let mut test_candidates = copy_masks(&cell_candidates);
                test_candidates.set(i, bit(val));
                proof {
                    assert(test_candidates@ == masks.update(i as int, bit_of(val)));
                }
                if has_perfect_matching_for_values(&test_candidates, &available_values) {
                    let updated = valid[i] | bit(val);
                    valid.set(i, updated);
                }
            }
            k = k + 1;
        }
        i = i + 1;
    }
}

fn contains_value(v: &Vec<u8>, n: u8) -> (r: bool)
    ensures r == v@.contains(n),
{
    for k in 0..v.len()
        invariant forall|i: int| 0 <= i < k ==> v@[i] != n,
    {
        if v[k] == n {
            return true;
        }
    }
    false
}

fn copy_masks(v: &Vec<u16>) -> (w: Vec<u16>)
    ensures w@ == v@,
{
    let mut w: Vec<u16> = Vec::new();
    for k in 0..v.len()
        invariant w@ == v@.take(k as int),
    {
        proof {
            assert(v@.take(k + 1) == v@.take(k as int).push(v@[k as int]));
        }
        w.push(v[k]);
    }
    proof {
        assert(v@.take(v@.len() as int) == v@);
    }
    w
}

/// The values each of `cells` can take, marked straight by straight over the
/// first `k` of `ranges`, starting from none.
pub open spec fn assignable_masks(
    s: HumanStr8ts,
    comp: Seq<(usize, usize)>,
    cells: Seq<(usize, usize)>,
    ranges: Seq<(u8, u8)>,
    k: int,
) -> Seq<u16>
    decreases k,
{
    if k <= 0 {
        Seq::new(cells.len(), |i: int| 0u16)
    } else {
        let prev = assignable_masks(s, comp, cells, ranges, k - 1);
        let vals = free_values(s, comp, ranges[k - 1].0, ranges[k - 1].1);
        let masks = cell_masks(s, cells);
        if placed_within(s, comp, ranges[k - 1].0, ranges[k - 1].1) && can_assign(masks, vals) {
            Seq::new(cells.len(), |i: int| marked(prev[i], masks, vals, i, vals.len() as int))
        } else {
            prev
        }
    }
}

/// Keeping only `keep` changes the candidates of `cell`.
pub open spec fn narrows(s: HumanStr8ts, cell: (usize, usize), keep: u16) -> bool {
    s.candidates[cell.0 as int][cell.1 as int] & keep != s.candidates[cell.0 as int][cell.1 as int]
}

/// The range check removes something in `comp`: some unsolved cell has a
/// candidate that no feasible straight lets it take.
pub open spec fn range_bites(s: HumanStr8ts, comp: Seq<(usize, usize)>) -> bool {
    let cells = comp.filter(unsolved_cell(s));
    let ranges = comp_ranges(s, comp);
    let va = assignable_masks(s, comp, cells, ranges, ranges.len() as int);
    ranges.len() > 0 && exists|i: int| 0 <= i < cells.len() && #[trigger] narrows(s, cells[i], va[i])
}

/// Compartment range check: a candidate stays only if, for some straight the
/// compartment can hold, the unsolved cells can take that straight's free
/// values one each with this cell taking this candidate.
pub(crate) fn use_compartment_range_check(s: &mut HumanStr8ts, comp_size: usize) -> (res: i32)
    requires old(s).wf(), 1 <= comp_size <= 9,
    ensures
        strategy_done(*old(s), *final(s), res, range_check_h(comp_size as int) as i32),
        res == 0 <==> !exists|i: int| 0 <= i < comps_view(old(s).row_compartments).len() + comps_view(old(s).col_compartments).len()
            && (comps_view(old(s).row_compartments) + comps_view(old(s).col_compartments))[i].len() == comp_size && #[trigger] range_bites(
            *old(s),
            (comps_view(old(s).row_compartments) + comps_view(old(s).col_compartments))[i],
        ),
{
    let ghost s0 = *s;
    let mut effective = false;
    proof {
        lemma_tracks_refl(s0);
    }
    let comps = all_compartments(s);
    let ghost all = comps_view(comps);
    let mut ci: usize = 0;
    while ci < comps.len()
        invariant
            s0 == *old(s), s0.wf(), ci <= comps@.len(),
            tracks(s0, *s, effective),
            !effective ==> *s == s0,
            all == comps_view(comps), all.len() == comps@.len(),
            forall|k: int| 0 <= k < comps@.len() ==> comp_ok(s0.is_black, #[trigger] comps@[k]@),
            effective <==> exists|i: int| 0 <= i < ci && all[i].len() == comp_size && #[trigger] range_bites(s0, all[i]),
        decreases comps@.len() - ci,
    {
        let comp = &comps[ci];
        proof {
            assert(comp_ok(s0.is_black, comps@[ci as int]@));
            assert(all[ci as int] == comp@);
        }
        let ghost eff0 = effective;
        if comp.len() == comp_size {
            let ghost before = *s;
            let e = range_check_comp(s, comp);
            proof {
                lemma_tracks_chain(s0, before, *s, effective, e);
            }
            if e {
                effective = true;
            }
        }
        proof {
            assert(effective <==> exists|i: int| 0 <= i < ci + 1 && all[i].len() == comp_size && #[trigger] range_bites(s0, all[i])) by {
                if exists|i: int| 0 <= i < ci + 1 && all[i].len() == comp_size && #[trigger] range_bites(s0, all[i]) {
                    let i = choose|i: int| 0 <= i < ci + 1 && all[i].len() == comp_size && #[trigger] range_bites(s0, all[i]);
                    if i < ci {
                        assert(exists|i: int| 0 <= i < ci && all[i].len() == comp_size && #[trigger] range_bites(s0, all[i]));
                    }
                }
            }
        }
        ci = ci + 1;
    }
    proof {
        lemma_strategy_done(s0, *s, effective, range_check_h(comp_size as int) as i32);
    }
    if effective {
        range_check_hardness(comp_size)
    } else {
        0
    }
}

/// The range check on one compartment: each unsolved cell keeps the values
/// it can take while the others take the rest of some feasible straight.
fn range_check_comp(s: &mut HumanStr8ts, comp: &Vec<(usize, usize)>) -> (eff: bool)
    requires old(s).wf(), comp_ok(old(s).is_black, comp@),
    ensures
        tracks(*old(s), *final(s), eff),
        !eff ==> *final(s) == *old(s),
        eff <==> range_bites(*old(s), comp@),
{
    let ghost s0 = *s;
    let mut eff = false;
    proof {
        lemma_tracks_refl(s0);
    }
    let ranges = get_compartment_ranges(s, comp);
    if ranges.len() == 0 {
        return false;
    }
    let unsolved = unsolved_cells(s, comp);
    let n_unsolved = unsolved.len();
    let mut valid: Vec<u16> = Vec::new();
    let mut k: usize = 0;
    while k < n_unsolved
        invariant
            k <= n_unsolved, n_unsolved == unsolved@.len(),
            valid@ == Seq::new(k as nat, |i: int| 0u16),
        decreases n_unsolved - k,
    {
        valid.push(0);
        proof {
            assert(valid@ =~= Seq::new((k + 1) as nat, |i: int| 0u16));
        }
        k = k + 1;
    }
    let ghost cells = unsolved@;
    proof {
        assert(valid@ =~= assignable_masks(s0, comp@, cells, ranges@, 0));
    }
    let mut ri: usize = 0;
    while ri < ranges.len()
        invariant
            *s == s0, s0.wf(), ri <= ranges@.len(),
            comp_ok(s0.is_black, comp@),
            cells == unsolved@, on_board(unsolved@), unsolved@.len() <= 9,
            cells == comp@.filter(unsolved_cell(s0)),
            valid@.len() == unsolved@.len(),
            ranges@ == comp_ranges(s0, comp@),
            forall|i: int| 0 <= i < ranges@.len() ==> 1 <= (#[trigger] ranges@[i]).0 && ranges@[i].0 + comp@.len() <= 10,
            valid@ == assignable_masks(s0, comp@, cells, ranges@, ri as int),
        decreases ranges@.len() - ri,
    {
        let (start, end) = ranges[ri];
        proof {
            assert(1 <= ranges@[ri as int].0);
            crate::candidates::lemma_ranges_bounds(comp_cands_mask(s0.candidates, comp@), comp@.len() as int, comp_solved_mask(s0, comp@));
            assert(ranges@[ri as int] == (start, end));
        }
        let ghost prev = valid@;
        mark_assignable(s, comp, &unsolved, start, end, &mut valid);
        proof {
            let vals = free_values(s0, comp@, start, end);
            let masks = cell_masks(s0, cells);
            if placed_within(s0, comp@, start, end) && can_assign(masks, vals) {
                assert(valid@ =~= Seq::new(cells.len(), |i: int| marked(prev[i], masks, vals, i, vals.len() as int)));
            }
        }
        ri = ri + 1;
    }
    let ghost va = valid@;
    proof {
        assert forall|k: int| 0 <= k < cells.len() implies !s0.is_black[(#[trigger] cells[k]).0 as int][cells[k].1 as int] by {
            assert(comp@.contains(cells[k]));
            let j = choose|j: int| 0 <= j < comp@.len() && comp@[j] == cells[k];
            assert(comp_ok(s0.is_black, comp@));
        }
    }
    let mut i: usize = 0;
    while i < n_unsolved
        invariant
            s0 == *old(s), s0.wf(), i <= n_unsolved,
            tracks(s0, *s, eff),
            !eff ==> *s == s0,
            n_unsolved == unsolved@.len(), cells == unsolved@,
            on_board(unsolved@),
            valid@ == va, valid@.len() == n_unsolved,
            s.is_black == s0.is_black,
            comp_ok(s0.is_black, comp@),
            forall|k: int| 0 <= k < cells.len() ==> !s0.is_black[(#[trigger] cells[k]).0 as int][cells[k].1 as int],
            eff <==> exists|j: int| 0 <= j < i && #[trigger] narrows(s0, cells[j], va[j]),
        decreases n_unsolved - i,
    {
        let (r, c) = unsolved[i];
        proof {
            assert(unsolved@[i as int] == (r, c));
        }
        let ghost before = *s;
        let ghost eff_before = eff;
        let e = narrow(s, r, c, valid[i]);
        proof {
            lemma_tracks_chain(s0, before, *s, eff, e);
            if !e {
                lemma_no_progress(before, *s);
            }
            if !eff_before {
                assert(e == narrows(s0, cells[i as int], va[i as int]));
            }
        }
        if e {
            eff = true;
        }
        proof {
            assert(eff <==> exists|j: int| 0 <= j < i + 1 && #[trigger] narrows(s0, cells[j], va[j])) by {
                if exists|j: int| 0 <= j < i + 1 && #[trigger] narrows(s0, cells[j], va[j]) {
                    let j = choose|j: int| 0 <= j < i + 1 && #[trigger] narrows(s0, cells[j], va[j]);
                    if j < i {
                        assert(exists|j: int| 0 <= j < i && #[trigger] narrows(s0, cells[j], va[j]));
                    }
                }
            }
        }
        i = i + 1;
    }
    eff
}

} // verus!
