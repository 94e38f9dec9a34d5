//! Setti's rule: over the whole board, a digit is missing from as many rows
//! as columns. Rows and columns are rated as sure to hold the digit,
//! possibly holding it, or missing it; when the counts pin the number of
//! missing lines, the undecided lines are settled.
use vstd::prelude::*;
use crate::board::{HumanStr8ts, N, comps_view};
use crate::candidates::{comp_ok, comp_sure, get_compartment_ranges, get_sure_candidates, lemma_comps_ok, mask_has, copy_comp};
use crate::hardness::{H_SETTI, H_SETTI_CONSIDER, H_SETTI_SET};
use crate::mask::{bit_of, has_digit, is_digit, lemma_bit_has, lemma_has_and_not};
use crate::moves::{
    add_digit, digit_placed, lemma_clear_bit, lemma_no_progress, lemma_strategy_done, lemma_tracks_chain, lemma_tracks_refl, lemma_weight_drops,
    moved, rem_candidate, strategy_done, tracks, weight,
};
use crate::sets::{combinations, increasing_below, listed_choice};

verus! {

/// How a row or column stands with respect to one digit.
#[derive(Debug, Clone, Copy, PartialEq, Eq, Structural)]
pub enum SettiStatus {
    /// The line cannot hold the digit.
    Missing,
    /// The line surely holds the digit.
    Sure,
    /// Undecided.
    Possible,
}

/// The cell at position `k` of a row (`by_rows`) or column.
pub open spec fn line_cell(line: int, k: int, by_rows: bool) -> (int, int) {
    if by_rows {
        (line, k)
    } else {
        (k, line)
    }
}

/// The line shows `num` already: in a solved cell or as a black clue.
fn setti_line_has_placed(s: &HumanStr8ts, line: usize, num: u8, by_rows: bool) -> (placed: bool)
    requires line < 9,
    ensures placed == exists|k: int| 0 <= k < 9 && {
        let (r, c) = #[trigger] line_cell(line as int, k, by_rows);
        s.numbers[r][c] == num && (s.solved[r][c] || (s.is_black[r][c] && s.numbers[r][c] != 0))
    },
{
    for k in 0..N
        invariant
            line < 9,
            forall|j: int| 0 <= j < k ==> !({
                let (r, c) = #[trigger] line_cell(line as int, j, by_rows);
                s.numbers[r][c] == num && (s.solved[r][c] || (s.is_black[r][c] && s.numbers[r][c] != 0))
            }),
    {
        let (r, c) = if by_rows { (line, k) } else { (k, line) };
        proof {
            assert(line_cell(line as int, k as int, by_rows) == (r as int, c as int));
        }
        if s.numbers[r][c] == num && (s.solved[r][c] || (s.is_black[r][c] && s.numbers[r][c] != 0)) {
            return true;
        }
    }
    false
}

/// The line shows `num` in a solved cell or as a black clue.
pub open spec fn placed_in_line(s: HumanStr8ts, line: int, num: u8, by_rows: bool) -> bool {
    exists|k: int| 0 <= k < 9 && {
        let (r, c) = #[trigger] line_cell(line, k, by_rows);
        s.numbers[r][c] == num && (s.solved[r][c] || (s.is_black[r][c] && s.numbers[r][c] != 0))
    }
}

/// The compartments of the rows (`by_rows`) or of the columns.
pub open spec fn line_comps(s: HumanStr8ts, by_rows: bool) -> Seq<Seq<(usize, usize)>> {
    if by_rows {
        comps_view(s.row_compartments)
    } else {
        comps_view(s.col_compartments)
    }
}

/// The row (`by_rows`) or column that a compartment lies in.
pub open spec fn comp_line(comp: Seq<(usize, usize)>, by_rows: bool) -> int {
    if by_rows {
        comp[0].0 as int
    } else {
        comp[0].1 as int
    }
}

/// The line surely holds `num`: it shows it, or one of its compartments is
/// sure of it.
pub open spec fn line_sure(s: HumanStr8ts, line: int, num: u8, by_rows: bool) -> bool {
    ||| placed_in_line(s, line, num, by_rows)
    ||| exists|i: int| 0 <= i < line_comps(s, by_rows).len() && comp_line(line_comps(s, by_rows)[i], by_rows) == line
        && #[trigger] comp_sure(s, line_comps(s, by_rows)[i], num)
}

/// The line holds `num` for sure: placed, or sure in one of its compartments.
#[verifier::spinoff_prover]
#[verifier::rlimit(40)]
fn setti_line_sure(s: &HumanStr8ts, line: usize, num: u8, by_rows: bool) -> (sure: bool)
    requires s.wf(), line < 9, is_digit(num),
    ensures sure == line_sure(*s, line as int, num, by_rows),
{
    if setti_line_has_placed(s, line, num, by_rows) {
        return true;
    }
    proof {
        lemma_comps_ok(*s);
    }
    let count = if by_rows { s.row_compartments.len() } else { s.col_compartments.len() };
    for i in 0..count
        invariant
            s.wf(), is_digit(num),
            count == if by_rows { s.row_compartments@.len() } else { s.col_compartments@.len() },
            forall|k: int| 0 <= k < s.row_compartments@.len() ==> comp_ok(s.is_black, #[trigger] s.row_compartments@[k]@),
            forall|k: int| 0 <= k < s.col_compartments@.len() ==> comp_ok(s.is_black, #[trigger] s.col_compartments@[k]@),
            !placed_in_line(*s, line as int, num, by_rows),
            count == line_comps(*s, by_rows).len(),
            forall|j: int| 0 <= j < i ==> !(comp_line(line_comps(*s, by_rows)[j], by_rows) == line
                && #[trigger] comp_sure(*s, line_comps(*s, by_rows)[j], num)),
    {
        let comp = if by_rows { copy_comp(&s.row_compartments[i]) } else { copy_comp(&s.col_compartments[i]) };
        proof {
            if by_rows {
                assert(comp_ok(s.is_black, s.row_compartments@[i as int]@));
            } else {
                assert(comp_ok(s.is_black, s.col_compartments@[i as int]@));
            }
            assert(comp@ == line_comps(*s, by_rows)[i as int]);
        }
        let head = if by_rows { comp[0].0 } else { comp[0].1 };
        if head == line {
            let ranges = get_compartment_ranges(s, &comp);
            let sure = get_sure_candidates(&ranges, comp.len());
            if mask_has(sure, num) {
                proof {
                    assert(comp_sure(*s, line_comps(*s, by_rows)[i as int], num));
                }
                return true;
            }
            proof {
                assert(!comp_sure(*s, line_comps(*s, by_rows)[i as int], num));
            }
        }
    }
    false
}

/// The cell `(r, c)` is white, unsolved and has `num` as a candidate.
pub open spec fn open_for(s: HumanStr8ts, rc: (int, int), num: u8) -> bool {
    !s.is_black[rc.0][rc.1] && !s.solved[rc.0][rc.1] && has_digit(s.candidates[rc.0][rc.1], num)
}

/// How a line rates for `num`: `forced` lines miss it, lines sure of it are
/// sure, and a line is undecided when a cell outside the `skip` cross lines
/// can still take it.
pub open spec fn line_rating(s: HumanStr8ts, num: u8, forced: Seq<bool>, skip: Seq<bool>, by_rows: bool, line: int) -> SettiStatus {
    if forced[line] {
        SettiStatus::Missing
    } else if line_sure(s, line, num, by_rows) {
        SettiStatus::Sure
    } else if exists|k: int| 0 <= k < 9 && !skip[k] && #[trigger] open_for(s, line_cell(line, k, by_rows), num) {
        SettiStatus::Possible
    } else {
        SettiStatus::Missing
    }
}

/// Rates the lines of one direction (`by_rows`) for `num`; `forced` lines are
/// taken as missing, and cells in the `skip` cross lines are not looked at.
fn rate_lines(s: &HumanStr8ts, num: u8, forced: &[bool; 9], skip: &[bool; 9], by_rows: bool) -> (status: [SettiStatus; 9])
    requires s.wf(), is_digit(num),
    ensures forall|line: int| 0 <= line < 9 ==> #[trigger] status[line] == line_rating(*s, num, forced@, skip@, by_rows, line),
{
    let mut status = [SettiStatus::Missing; 9];
    let mut line: usize = 0;
    while line < N
        invariant
            s.wf(), is_digit(num), line <= 9,
            forall|l: int| 0 <= l < line ==> #[trigger] status[l] == line_rating(*s, num, forced@, skip@, by_rows, l),
        decreases 9 - line,
    {
        if forced[line] {
            status[line] = SettiStatus::Missing;
        } else if setti_line_sure(s, line, num, by_rows) {
            status[line] = SettiStatus::Sure;
        } else {
            let mut possible = false;
            let mut k: usize = 0;
            while k < N && !possible
                invariant
                    line < 9, is_digit(num), k <= 9,
                    possible ==> exists|j: int| 0 <= j < 9 && !skip[j] && #[trigger] open_for(*s, line_cell(line as int, j, by_rows), num),
                    !possible ==> forall|j: int| 0 <= j < k ==> !(!skip[j] && #[trigger] open_for(*s, line_cell(line as int, j, by_rows), num)),
                decreases 9 - k,
            {
                let (r, c) = if by_rows { (line, k) } else { (k, line) };
                proof {
                    assert(line_cell(line as int, k as int, by_rows) == (r as int, c as int));
                }
                if !skip[k] && !s.is_black[r][c] && !s.solved[r][c] && mask_has(s.candidates[r][c], num) {
                    proof {
                        assert(open_for(*s, line_cell(line as int, k as int, by_rows), num));
                    }
                    possible = true;
                }
                k = k + 1;
            }
            status[line] = if possible { SettiStatus::Possible } else { SettiStatus::Missing };
        }
        line = line + 1;
    }
    status
}

/// The ratings of all rows and columns for `num`, or `None` when a line
/// forced to miss `num` shows it already.
fn setti_statuses(
    s: &HumanStr8ts,
    num: u8,
    forced_missing_rows: &[bool; 9],
    forced_missing_cols: &[bool; 9],
) -> (res: Option<([SettiStatus; 9], [SettiStatus; 9])>)
    requires s.wf(), is_digit(num),
    ensures
        res is None <==> (exists|r: int| 0 <= r < 9 && forced_missing_rows[r] && #[trigger] placed_in_line(*s, r, num, true))
            || (exists|c: int| 0 <= c < 9 && forced_missing_cols[c] && #[trigger] placed_in_line(*s, c, num, false)),
        res matches Some(st) ==> forall|l: int| 0 <= l < 9 ==> #[trigger] st.0[l] == line_rating(
            *s,
            num,
            forced_missing_rows@,
            forced_missing_cols@,
            true,
            l,
        ),
        res matches Some(st) ==> forall|l: int| 0 <= l < 9 ==> #[trigger] st.1[l] == line_rating(
            *s,
            num,
            forced_missing_cols@,
            forced_missing_rows@,
            false,
            l,
        ),
{
    let mut r: usize = 0;
    while r < N
        invariant r <= 9, forall|j: int| 0 <= j < r ==> !(forced_missing_rows[j] && #[trigger] placed_in_line(*s, j, num, true)),
        decreases 9 - r,
    {
        if forced_missing_rows[r] && setti_line_has_placed(s, r, num, true) {
            proof {
                assert(placed_in_line(*s, r as int, num, true));
            }
            return None;
        }
        r = r + 1;
    }
    let mut c: usize = 0;
    while c < N
        invariant
            c <= 9,
            forall|j: int| 0 <= j < 9 ==> !(forced_missing_rows[j] && #[trigger] placed_in_line(*s, j, num, true)),
            forall|j: int| 0 <= j < c ==> !(forced_missing_cols[j] && #[trigger] placed_in_line(*s, j, num, false)),
        decreases 9 - c,
    {
        if forced_missing_cols[c] && setti_line_has_placed(s, c, num, false) {
            proof {
                assert(placed_in_line(*s, c as int, num, false));
            }
            return None;
        }
        c = c + 1;
    }
    let row_status = rate_lines(s, num, forced_missing_rows, forced_missing_cols, true);
    let col_status = rate_lines(s, num, forced_missing_cols, forced_missing_rows, false);
    Some((row_status, col_status))
}

/// How many lines rate `which`, among the first `k`.
pub open spec fn count_status(status: [SettiStatus; 9], which: SettiStatus, k: int) -> int
    decreases k,
{
    if k <= 0 {
        0
    } else {
        count_status(status, which, k - 1) + if status[k - 1] == which { 1int } else { 0int }
    }
}

/// The fewest and the most lines that can miss the digit: the missing ones,
/// and those plus the undecided.
fn setti_missing_bounds(status: &[SettiStatus; 9]) -> (b: (i32, i32))
    ensures
        b.0 == count_status(*status, SettiStatus::Missing, 9),
        b.1 == count_status(*status, SettiStatus::Missing, 9) + count_status(*status, SettiStatus::Possible, 9),
        0 <= b.0 <= 9, 0 <= b.1 <= 18,
{
    let mut missing: i32 = 0;
    let mut possible: i32 = 0;
    for k in 0..N
        invariant
            missing == count_status(*status, SettiStatus::Missing, k as int),
            possible == count_status(*status, SettiStatus::Possible, k as int),
            0 <= missing <= k, 0 <= possible <= k,
    {
        if status[k] == SettiStatus::Missing {
            missing = missing + 1;
        }
        if status[k] == SettiStatus::Possible {
            possible = possible + 1;
        }
    }
    (missing, missing + possible)
}

/// How many lines of one direction rate `which`, among the first `k`.
pub open spec fn count_rated(
    s: HumanStr8ts,
    num: u8,
    forced: Seq<bool>,
    skip: Seq<bool>,
    by_rows: bool,
    which: SettiStatus,
    k: int,
) -> int
    decreases k,
{
    if k <= 0 {
        0
    } else {
        count_rated(s, num, forced, skip, by_rows, which, k - 1) + if line_rating(s, num, forced, skip, by_rows, k - 1) == which {
            1int
        } else {
            0int
        }
    }
}

proof fn lemma_count_rated(
    status: [SettiStatus; 9],
    s: HumanStr8ts,
    num: u8,
    forced: Seq<bool>,
    skip: Seq<bool>,
    by_rows: bool,
    which: SettiStatus,
    k: int,
)
    requires
        0 <= k <= 9,
        forall|l: int| 0 <= l < 9 ==> #[trigger] status[l] == line_rating(s, num, forced, skip, by_rows, l),
    ensures count_status(status, which, k) == count_rated(s, num, forced, skip, by_rows, which, k),
    decreases k,
{
    if k > 0 {
        lemma_count_rated(status, s, num, forced, skip, by_rows, which, k - 1);
    }
}

/// Only the line `line` is marked.
pub open spec fn only_line(line: int) -> Seq<bool> {
    Seq::new(9, |i: int| i == line)
}

/// No line is marked.
pub open spec fn no_line() -> Seq<bool> {
    Seq::new(9, |i: int| false)
}

/// With rows `fr` and columns `fc` taken as missing `num`, the fewest lines
/// that must miss it in one direction exceed the most that can in the other.
pub open spec fn counts_clash(s: HumanStr8ts, num: u8, fr: Seq<bool>, fc: Seq<bool>) -> bool {
    let min_r = count_rated(s, num, fr, fc, true, SettiStatus::Missing, 9);
    let max_r = min_r + count_rated(s, num, fr, fc, true, SettiStatus::Possible, 9);
    let min_c = count_rated(s, num, fc, fr, false, SettiStatus::Missing, 9);
    let max_c = min_c + count_rated(s, num, fc, fr, false, SettiStatus::Possible, 9);
    (if min_r > min_c { min_r } else { min_c }) > (if max_r < max_c { max_r } else { max_c })
}

/// Taking the line as missing `num` breaks the counts.
pub open spec fn miss_clashes(s: HumanStr8ts, num: u8, line: int, by_rows: bool) -> bool {
    if by_rows {
        counts_clash(s, num, only_line(line), no_line())
    } else {
        counts_clash(s, num, no_line(), only_line(line))
    }
}

/// The undecided lines, in order.
fn setti_possible_indices(status: &[SettiStatus; 9]) -> (out: Vec<usize>)
    ensures
        out@ == Seq::new(9, |k: int| k as usize).filter(|k: usize| status[k as int] == SettiStatus::Possible),
        forall|k: int| 0 <= k < out@.len() ==> #[trigger] out@[k] < 9 && status[out@[k] as int] == SettiStatus::Possible,
{
    let ghost all = Seq::new(9, |k: int| k as usize);
    let ghost p = |k: usize| status[k as int] == SettiStatus::Possible;
    let mut out: Vec<usize> = Vec::new();
    for k in 0..N
        invariant
            all == Seq::new(9, |k: int| k as usize),
            p == (|k: usize| status[k as int] == SettiStatus::Possible),
            out@ == all.take(k as int).filter(p),
            forall|j: int| 0 <= j < out@.len() ==> #[trigger] out@[j] < 9 && status[out@[j] as int] == SettiStatus::Possible,
    {
        proof {
            assert(all.take(k + 1).drop_last() == all.take(k as int));
            assert(all.take(k + 1).last() == k);
            reveal_with_fuel(Seq::filter, 1);
        }
        if status[k] == SettiStatus::Possible {
            out.push(k);
        }
    }
    proof {
        assert(all.take(9) == all);
    }
    out
}

/// Removes `num` from the unsolved white cells of the line.
fn setti_remove_from_line(s: &mut HumanStr8ts, line: usize, num: u8, by_rows: bool) -> (eff: bool)
    requires old(s).wf(), line < 9, is_digit(num),
    ensures
        tracks(*old(s), *final(s), eff),
        final(s).solved == old(s).solved,
        final(s).numbers == old(s).numbers,
        forall|i: int, j: int| 0 <= i < 9 && 0 <= j < 9 ==> #[trigger] final(s).candidates[i][j] == if (if by_rows { i == line } else {
            j == line
        }) && !old(s).is_black[i][j] && !old(s).solved[i][j] {
            old(s).candidates[i][j] & !bit_of(num)
        } else {
            old(s).candidates[i][j]
        },
        eff <==> exists|k: int| 0 <= k < 9 && #[trigger] open_for(*old(s), line_cell(line as int, k, by_rows), num),
        !eff ==> *final(s) == *old(s),
{
    let ghost s0 = *s;
    let mut eff = false;
    proof {
        lemma_tracks_refl(s0);
    }
    let mut k: usize = 0;
    while k < N
        invariant
            s0 == *old(s), s0.wf(), tracks(s0, *s, eff), line < 9, is_digit(num), k <= 9,
            s.solved == s0.solved,
            s.numbers == s0.numbers,
            forall|i: int, j: int| 0 <= i < 9 && 0 <= j < 9 ==> #[trigger] s.candidates[i][j] == if (if by_rows { i == line && j < k } else {
                j == line && i < k
            }) && !s0.is_black[i][j] && !s0.solved[i][j] {
                s0.candidates[i][j] & !bit_of(num)
            } else {
                s0.candidates[i][j]
            },
        decreases 9 - k,
    {
        let (r, c) = if by_rows { (line, k) } else { (k, line) };
        let ghost before = *s;
        if !s.is_black[r][c] && !s.solved[r][c] && mask_has(s.candidates[r][c], num) {
            rem_candidate(s, r, c, num);
            proof {
                lemma_tracks_chain(s0, before, *s, eff, true);
            }
            eff = true;
        }
        proof {
            lemma_clear_bit(s0.candidates[r as int][c as int], bit_of(num));
        }
        k = k + 1;
    }
    proof {
        if eff {
            let (x, y) = choose|x: int, y: int| 0 <= x < 9 && 0 <= y < 9 && #[trigger] moved(s0, *s, x, y);
            let m = s0.candidates[x][y];
            if !has_digit(m, num) {
                lemma_clear_bit(m, bit_of(num));
            }
            let k = if by_rows { y } else { x };
            assert(line_cell(line as int, k, by_rows) == (x, y));
            assert(open_for(s0, line_cell(line as int, k, by_rows), num));
        } else {
            lemma_no_progress(s0, *s);
        }
        if exists|k: int| 0 <= k < 9 && #[trigger] open_for(s0, line_cell(line as int, k, by_rows), num) {
            let k = choose|k: int| 0 <= k < 9 && #[trigger] open_for(s0, line_cell(line as int, k, by_rows), num);
            let (x, y) = line_cell(line as int, k, by_rows);
            lemma_has_and_not(s0.candidates[x][y], bit_of(num), num);
            lemma_bit_has(num, num);
            assert(moved(s0, *s, x, y));
        }
    }
    eff
}

/// The positions along the line whose cell is white, unsolved and has `num`.
pub open spec fn open_positions(s: HumanStr8ts, line: int, num: u8, by_rows: bool) -> Seq<int> {
    Seq::new(9, |k: int| k).filter(|k: int| open_for(s, line_cell(line, k, by_rows), num))
}

/// When the line does not show `num` yet and only one of its unsolved white
/// cells can take it, places it there.
fn setti_place_if_single_in_line(s: &mut HumanStr8ts, line: usize, num: u8, by_rows: bool) -> (placed: bool)
    requires old(s).wf(), line < 9, is_digit(num),
    ensures
        placed ==> tracks(*old(s), *final(s), true),
        !placed ==> *final(s) == *old(s),
        placed <==> !placed_in_line(*old(s), line as int, num, by_rows) && open_positions(*old(s), line as int, num, by_rows).len() == 1,
        placed ==> {
            let rc = line_cell(line as int, open_positions(*old(s), line as int, num, by_rows)[0], by_rows);
            digit_placed(*old(s), *final(s), rc.0, rc.1, num)
        },
{
    if setti_line_has_placed(s, line, num, by_rows) {
        proof {
            assert(placed_in_line(*s, line as int, num, by_rows));
        }
        return false;
    }
    let ghost all = Seq::new(9, |k: int| k);
    let ghost p = |k: int| open_for(*s, line_cell(line as int, k, by_rows), num);
    let mut cells: Vec<(usize, usize)> = Vec::new();
    let mut k: usize = 0;
    while k < N
        invariant
            line < 9, is_digit(num), k <= 9,
            all == Seq::new(9, |k: int| k),
            p == (|k: int| open_for(*s, line_cell(line as int, k, by_rows), num)),
            cells@.len() == all.take(k as int).filter(p).len(),
            forall|j: int| 0 <= j < cells@.len() ==> #[trigger] cells@[j] == {
                let rc = line_cell(line as int, all.take(k as int).filter(p)[j], by_rows);
                (rc.0 as usize, rc.1 as usize)
            },
        decreases 9 - k,
    {
        let (r, c) = if by_rows { (line, k) } else { (k, line) };
        proof {
            assert(all.take(k + 1) == all.take(k as int).push(k as int));
            all.take(k as int).lemma_filter_push(k as int, p);
        }
        if !s.is_black[r][c] && !s.solved[r][c] && mask_has(s.candidates[r][c], num) {
            cells.push((r, c));
        }
        k = k + 1;
    }
    proof {
        assert(all.take(9) == all);
        assert(all.filter(p) == open_positions(*s, line as int, num, by_rows));
    }
    if cells.len() == 1 {
        let (r, c) = cells[0];
        proof {
            assert(cells@[0] == (r, c));
            let k0 = all.filter(p)[0];
            all.lemma_filter_pred(p, 0);
            assert(all.filter(p).contains(k0));
            all.lemma_filter_contains_rev(p, k0);
            let i0 = choose|i: int| 0 <= i < all.len() && all[i] == k0;
            assert(0 <= k0 < 9);
            assert(open_for(*s, line_cell(line as int, k0, by_rows), num));
        }
        add_digit(s, r, c, num);
        return true;
    }
    false
}

/// The bound that pass `pass` of settling compares with the missing count:
/// most rows, most columns, fewest rows, fewest columns.
pub open spec fn pass_bound(pass: int, min_r: int, max_r: int, min_c: int, max_c: int) -> int {
    if pass == 0 {
        max_r
    } else if pass == 1 {
        max_c
    } else if pass == 2 {
        min_r
    } else {
        min_c
    }
}

/// Passes 0 and 2 of settling work on rows.
pub open spec fn pass_rows(pass: int) -> bool {
    pass == 0 || pass == 2
}

/// Passes 2 and 3 of settling place digits.
pub open spec fn pass_places(pass: int) -> bool {
    pass >= 2
}

/// Settling the line changes the board: removing `num` from it (a cell can
/// still take it), or placing it (`place`: the line does not show it and one
/// cell can take it).
pub open spec fn line_op_bites(s: HumanStr8ts, num: u8, line: int, by_rows: bool, place: bool) -> bool {
    if place {
        !placed_in_line(s, line, num, by_rows) && open_positions(s, line, num, by_rows).len() == 1
    } else {
        exists|k: int| 0 <= k < 9 && #[trigger] open_for(s, line_cell(line, k, by_rows), num)
    }
}

/// Some pass of settling, whose bound equals the missing count, changes the
/// board on one of its undecided lines.
pub open spec fn settle_bites(
    s: HumanStr8ts,
    num: u8,
    rs: Seq<SettiStatus>,
    cs: Seq<SettiStatus>,
    min_r: int,
    max_r: int,
    min_c: int,
    max_c: int,
    missing: int,
) -> bool {
    exists|pass: int, line: int| 0 <= pass < 4 && 0 <= line < 9 && pass_bound(pass, min_r, max_r, min_c, max_c) == missing
        && (if pass_rows(pass) { rs[line] } else { cs[line] }) == SettiStatus::Possible
        && #[trigger] line_op_bites(s, num, line, pass_rows(pass), pass_places(pass))
}

/// Settles the undecided lines of one digit as far as the counts allow; tells
/// whether anything changed.
fn settle(
    s: &mut HumanStr8ts,
    num: u8,
    row_status: &[SettiStatus; 9],
    col_status: &[SettiStatus; 9],
    min_rows: i32,
    max_rows: i32,
    min_cols: i32,
    max_cols: i32,
    missing_count: i32,
) -> (eff: bool)
    requires old(s).wf(), is_digit(num),
    ensures
        tracks(*old(s), *final(s), eff),
        !eff ==> *final(s) == *old(s),
        eff <==> settle_bites(
            *old(s),
            num,
            row_status@,
            col_status@,
            min_rows as int,
            max_rows as int,
            min_cols as int,
            max_cols as int,
            missing_count as int,
        ),
{
    let ghost s0 = *s;
    let ghost (mr, xr, mc, xc, ms) = (min_rows as int, max_rows as int, min_cols as int, max_cols as int, missing_count as int);
    let mut eff = false;
    proof {
        lemma_tracks_refl(s0);
    }
    let possible_rows = setti_possible_indices(row_status);
    let possible_cols = setti_possible_indices(col_status);
    let mut pass: usize = 0;
    while pass < 4
        invariant
            s0 == *old(s), s0.wf(), tracks(s0, *s, eff), is_digit(num), pass <= 4,
            !eff ==> *s == s0,
            mr == min_rows, xr == max_rows, mc == min_cols, xc == max_cols, ms == missing_count,
            possible_rows@ == Seq::new(9, |k: int| k as usize).filter(|k: usize| row_status[k as int] == SettiStatus::Possible),
            possible_cols@ == Seq::new(9, |k: int| k as usize).filter(|k: usize| col_status[k as int] == SettiStatus::Possible),
            forall|k: int| 0 <= k < possible_rows@.len() ==> #[trigger] possible_rows@[k] < 9 && row_status[possible_rows@[k] as int] == SettiStatus::Possible,
            forall|k: int| 0 <= k < possible_cols@.len() ==> #[trigger] possible_cols@[k] < 9 && col_status[possible_cols@[k] as int] == SettiStatus::Possible,
            eff <==> exists|p: int, line: int| 0 <= p < pass && 0 <= line < 9 && pass_bound(p, mr, xr, mc, xc) == ms
                && (if pass_rows(p) { row_status@[line] } else { col_status@[line] }) == SettiStatus::Possible
                && #[trigger] line_op_bites(s0, num, line, pass_rows(p), pass_places(p)),
        decreases 4 - pass,
    {
        let by_rows = pass == 0 || pass == 2;
        let bound = if pass == 0 { max_rows } else if pass == 1 { max_cols } else if pass == 2 { min_rows } else { min_cols };
        let ghost eff_p = eff;
        let ghost st = if by_rows { row_status@ } else { col_status@ };
        if bound == missing_count {
            let lines = if by_rows { &possible_rows } else { &possible_cols };
            let mut k: usize = 0;
            while k < lines.len()
                invariant
                    s0 == *old(s), s0.wf(), tracks(s0, *s, eff), is_digit(num), k <= lines@.len(), pass < 4,
                    !eff ==> *s == s0,
                    by_rows == (pass == 0 || pass == 2),
                    forall|j: int| 0 <= j < lines@.len() ==> #[trigger] lines@[j] < 9 && st[lines@[j] as int] == SettiStatus::Possible,
                    eff <==> eff_p || exists|j: int| 0 <= j < k && #[trigger] line_op_bites(s0, num, lines@[j] as int, by_rows, pass_places(pass as int)),
                decreases lines@.len() - k,
            {
                let line = lines[k];
                let ghost before = *s;
                let ghost eff_b = eff;
                let e = if pass < 2 {
                    setti_remove_from_line(s, line, num, by_rows)
                } else {
                    setti_place_if_single_in_line(s, line, num, by_rows)
                };
                proof {
                    if !e && pass >= 2 {
                        lemma_tracks_refl(before);
                    }
                    lemma_tracks_chain(s0, before, *s, eff, e);
                    assert(by_rows == pass_rows(pass as int));
                    if !eff_b {
                        assert(e <==> line_op_bites(s0, num, line as int, by_rows, pass_places(pass as int)));
                    }
                }
                if e {
                    eff = true;
                }
                proof {
                    assert(eff <==> eff_p || exists|j: int| 0 <= j < k + 1 && #[trigger] line_op_bites(s0, num, lines@[j] as int, by_rows, pass_places(pass as int))) by {
                        if exists|j: int| 0 <= j < k + 1 && #[trigger] line_op_bites(s0, num, lines@[j] as int, by_rows, pass_places(pass as int)) {
                            let j = choose|j: int| 0 <= j < k + 1 && #[trigger] line_op_bites(s0, num, lines@[j] as int, by_rows, pass_places(pass as int));
                            if j < k {
                                assert(exists|j: int| 0 <= j < k && #[trigger] line_op_bites(s0, num, lines@[j] as int, by_rows, pass_places(pass as int)));
                            }
                        }
                    }
                }
                k = k + 1;
            }
            proof {
                assert((exists|j: int| 0 <= j < lines@.len() && #[trigger] line_op_bites(s0, num, lines@[j] as int, by_rows, pass_places(pass as int)))
                    <==> exists|line: int| 0 <= line < 9 && st[line] == SettiStatus::Possible && #[trigger] line_op_bites(s0, num, line, by_rows, pass_places(pass as int))) by {
                    if exists|line: int| 0 <= line < 9 && st[line] == SettiStatus::Possible && #[trigger] line_op_bites(s0, num, line, by_rows, pass_places(pass as int)) {
                        let line = choose|line: int| 0 <= line < 9 && st[line] == SettiStatus::Possible && #[trigger] line_op_bites(s0, num, line, by_rows, pass_places(pass as int));
                        if by_rows {
                            lemma_possible_listed(*row_status, possible_rows@, line);
                        } else {
                            lemma_possible_listed(*col_status, possible_cols@, line);
                        }
                        let j = choose|j: int| 0 <= j < lines@.len() && lines@[j] == line;
                        assert(line_op_bites(s0, num, lines@[j] as int, by_rows, pass_places(pass as int)));
                    }
                    if exists|j: int| 0 <= j < lines@.len() && #[trigger] line_op_bites(s0, num, lines@[j] as int, by_rows, pass_places(pass as int)) {
                        let j = choose|j: int| 0 <= j < lines@.len() && #[trigger] line_op_bites(s0, num, lines@[j] as int, by_rows, pass_places(pass as int));
                        assert(st[lines@[j] as int] == SettiStatus::Possible);
                    }
                }
            }
        }
        proof {
            assert(pass_bound(pass as int, mr, xr, mc, xc) == bound as int);
            assert(eff <==> exists|p: int, line: int| 0 <= p < pass + 1 && 0 <= line < 9 && pass_bound(p, mr, xr, mc, xc) == ms
                && (if pass_rows(p) { row_status@[line] } else { col_status@[line] }) == SettiStatus::Possible
                && #[trigger] line_op_bites(s0, num, line, pass_rows(p), pass_places(p))) by {
                if exists|p: int, line: int| 0 <= p < pass + 1 && 0 <= line < 9 && pass_bound(p, mr, xr, mc, xc) == ms
                    && (if pass_rows(p) { row_status@[line] } else { col_status@[line] }) == SettiStatus::Possible
                    && #[trigger] line_op_bites(s0, num, line, pass_rows(p), pass_places(p)) {
                    let (p, line) = choose|p: int, line: int| 0 <= p < pass + 1 && 0 <= line < 9 && pass_bound(p, mr, xr, mc, xc) == ms
                        && (if pass_rows(p) { row_status@[line] } else { col_status@[line] }) == SettiStatus::Possible
                        && #[trigger] line_op_bites(s0, num, line, pass_rows(p), pass_places(p));
                    if p < pass {
                        assert(exists|p: int, line: int| 0 <= p < pass && 0 <= line < 9 && pass_bound(p, mr, xr, mc, xc) == ms
                            && (if pass_rows(p) { row_status@[line] } else { col_status@[line] }) == SettiStatus::Possible
                            && #[trigger] line_op_bites(s0, num, line, pass_rows(p), pass_places(p)));
                    } else {
                        assert(st[line] == SettiStatus::Possible);
                        assert(by_rows == pass_rows(pass as int));
                    }
                }
                if eff && !eff_p {
                    assert(bound == missing_count);
                    assert(by_rows == pass_rows(pass as int));
                    let line = choose|line: int| 0 <= line < 9 && st[line] == SettiStatus::Possible && #[trigger] line_op_bites(s0, num, line, by_rows, pass_places(pass as int));
                    assert(line_op_bites(s0, num, line, pass_rows(pass as int), pass_places(pass as int)));
                }
            }
        }
        pass = pass + 1;
    }
    eff
}

/// The ratings of the rows (`by_rows`) or columns for `num`, none forced.
pub open spec fn free_ratings(s: HumanStr8ts, num: u8, by_rows: bool) -> Seq<SettiStatus> {
    Seq::new(9, |l: int| line_rating(s, num, no_line(), no_line(), by_rows, l))
}

/// Setti's rule changes the board for `num`: the fewest and the most lines
/// that can miss it pin the count, and settling the undecided lines bites.
pub open spec fn rule_bites(s: HumanStr8ts, num: u8) -> bool {
    let min_r = count_rated(s, num, no_line(), no_line(), true, SettiStatus::Missing, 9);
    let max_r = min_r + count_rated(s, num, no_line(), no_line(), true, SettiStatus::Possible, 9);
    let min_c = count_rated(s, num, no_line(), no_line(), false, SettiStatus::Missing, 9);
    let max_c = min_c + count_rated(s, num, no_line(), no_line(), false, SettiStatus::Possible, 9);
    let lo = if min_r > min_c { min_r } else { min_c };
    let hi = if max_r < max_c { max_r } else { max_c };
    lo == hi && settle_bites(s, num, free_ratings(s, num, true), free_ratings(s, num, false), min_r, max_r, min_c, max_c, lo)
}

/// Setti's rule, digit by digit, repeated while it changes something.
pub(crate) fn use_settis_rule(s: &mut HumanStr8ts) -> (res: i32)
    requires old(s).wf(),
    ensures
        strategy_done(*old(s), *final(s), res, H_SETTI),
        res == 0 <==> !exists|num: u8| is_digit(num) && #[trigger] rule_bites(*old(s), num),
{
    let ghost s0 = *s;
    let mut effective = false;
    let no_forced_rows = [false; 9];
    let no_forced_cols = [false; 9];
    proof {
        lemma_tracks_refl(s0);
        assert(no_forced_rows@ =~= no_line());
        assert(no_forced_cols@ =~= no_line());
    }
    let mut num: u8 = 1;
    while num < 10
        invariant
            s0 == *old(s), s0.wf(), tracks(s0, *s, effective), 1 <= num <= 10,
            !effective ==> *s == s0,
            no_forced_rows@ == no_line(), no_forced_cols@ == no_line(),
            effective <==> exists|n: u8| 1 <= n < num && #[trigger] rule_bites(s0, n),
        decreases 10 - num,
    {
        let ghost eff_n = effective;
        let mut changed = true;
        let ghost mut started = false;
        proof {
            lemma_tracks_refl(*s);
            lemma_weight_drops(*s, *s);
        }
        while changed
            invariant
                s0 == *old(s), s0.wf(), tracks(s0, *s, effective), 1 <= num <= 9,
                weight(*s) >= 0,
                no_forced_rows@ == no_line(), no_forced_cols@ == no_line(),
                !started ==> changed && effective == eff_n,
                eff_n ==> effective,
                !effective ==> *s == s0,
                started && !eff_n ==> (effective <==> rule_bites(s0, num)),
                started && changed ==> effective,
            decreases weight(*s) + if changed { 1int } else { 0int },
        {
            let ghost start = *s;
            let ghost first = !started;
            changed = false;
            let statuses = setti_statuses(s, num, &no_forced_rows, &no_forced_cols);
            if let Some((row_status, col_status)) = statuses {
                let (min_rows, max_rows) = setti_missing_bounds(&row_status);
                let (min_cols, max_cols) = setti_missing_bounds(&col_status);
                let lo = if min_rows > min_cols { min_rows } else { min_cols };
                let hi = if max_rows < max_cols { max_rows } else { max_cols };
                proof {
                    if first && !eff_n {
                        assert(start == s0);
                        lemma_count_rated(row_status, s0, num, no_line(), no_line(), true, SettiStatus::Missing, 9);
                        lemma_count_rated(row_status, s0, num, no_line(), no_line(), true, SettiStatus::Possible, 9);
                        lemma_count_rated(col_status, s0, num, no_line(), no_line(), false, SettiStatus::Missing, 9);
                        lemma_count_rated(col_status, s0, num, no_line(), no_line(), false, SettiStatus::Possible, 9);
                        assert(row_status@ =~= free_ratings(s0, num, true));
                        assert(col_status@ =~= free_ratings(s0, num, false));
                    }
                }
                if lo == hi {
                    let e = settle(s, num, &row_status, &col_status, min_rows, max_rows, min_cols, max_cols, lo);
                    proof {
                        lemma_tracks_chain(s0, start, *s, effective, e);
                        lemma_weight_drops(start, *s);
                        if first && !eff_n {
                            assert(e <==> rule_bites(s0, num));
                        }
                    }
                    if e {
                        effective = true;
                        changed = true;
                    }
                } else {
                    proof {
                        if first && !eff_n {
                            assert(!rule_bites(s0, num));
                        }
                    }
                }
            } else {
                proof {
                    let r = choose|r: int| 0 <= r < 9 && no_forced_rows[r] && #[trigger] placed_in_line(*s, r, num, true);
                    let c = choose|c: int| 0 <= c < 9 && no_forced_cols[c] && #[trigger] placed_in_line(*s, c, num, false);
                    assert(false);
                }
            }
            proof {
                if !changed {
                    lemma_weight_drops(start, *s);
                }
                started = true;
            }
        }
        proof {
            assert(effective <==> exists|n: u8| 1 <= n < num + 1 && #[trigger] rule_bites(s0, n)) by {
                if exists|n: u8| 1 <= n < num + 1 && #[trigger] rule_bites(s0, n) {
                    let n = choose|n: u8| 1 <= n < num + 1 && #[trigger] rule_bites(s0, n);
                    if n < num {
                        assert(exists|n: u8| 1 <= n < num && #[trigger] rule_bites(s0, n));
                    }
                }
            }
        }
        num = num + 1;
    }
    proof {
        lemma_strategy_done(s0, *s, effective, H_SETTI);
    }
    if effective {
        H_SETTI
    } else {
        0
    }
}

/// Assuming the line `line` misses `num` leads to a contradiction, so the
/// digit goes into the line when only one cell can take it.
fn consider_line(s: &mut HumanStr8ts, num: u8, line: usize, by_rows: bool) -> (placed: bool)
    requires old(s).wf(), is_digit(num), line < 9,
    ensures
        placed ==> tracks(*old(s), *final(s), true),
        !placed ==> *final(s) == *old(s),
        placed <==> !placed_in_line(*old(s), line as int, num, by_rows) && miss_clashes(*old(s), num, line as int, by_rows)
            && open_positions(*old(s), line as int, num, by_rows).len() == 1,
        placed ==> {
            let rc = line_cell(line as int, open_positions(*old(s), line as int, num, by_rows)[0], by_rows);
            digit_placed(*old(s), *final(s), rc.0, rc.1, num)
        },
{
    let no_forced = [false; 9];
    let mut forced = [false; 9];
    forced[line] = true;
    proof {
        assert(forced@ =~= only_line(line as int));
        assert(no_forced@ =~= no_line());
    }
    let hyp = if by_rows {
        setti_statuses(s, num, &forced, &no_forced)
    } else {
        setti_statuses(s, num, &no_forced, &forced)
    };
    match hyp {
        None => {
            proof {
                if by_rows {
                    let r = choose|r: int| 0 <= r < 9 && forced[r] && #[trigger] placed_in_line(*s, r, num, true);
                    assert(r == line);
                } else {
                    let c = choose|c: int| 0 <= c < 9 && forced[c] && #[trigger] placed_in_line(*s, c, num, false);
                    assert(c == line);
                }
            }
            setti_place_if_single_in_line(s, line, num, by_rows)
        },
        Some((row_hyp, col_hyp)) => {
            let (min_rows, max_rows) = setti_missing_bounds(&row_hyp);
            let (min_cols, max_cols) = setti_missing_bounds(&col_hyp);
            proof {
                assert(forced[line as int]);
                let (fr, fc) = if by_rows { (forced@, no_forced@) } else { (no_forced@, forced@) };
                lemma_count_rated(row_hyp, *s, num, fr, fc, true, SettiStatus::Missing, 9);
                lemma_count_rated(row_hyp, *s, num, fr, fc, true, SettiStatus::Possible, 9);
                lemma_count_rated(col_hyp, *s, num, fc, fr, false, SettiStatus::Missing, 9);
                lemma_count_rated(col_hyp, *s, num, fc, fr, false, SettiStatus::Possible, 9);
            }
            let lo = if min_rows > min_cols { min_rows } else { min_cols };
            let hi = if max_rows < max_cols { max_rows } else { max_cols };
            if lo > hi {
                setti_place_if_single_in_line(s, line, num, by_rows)
            } else {
                false
            }
        },
    }
}

/// Setti consider applies to `num` and the line: the line is undecided,
/// taking it as missing `num` breaks the counts, it does not show `num`, and
/// a single one of its cells can take it.
pub open spec fn consider_applies(s: HumanStr8ts, num: u8, line: int, by_rows: bool) -> bool {
    &&& is_digit(num) && 0 <= line < 9
    &&& line_rating(s, num, no_line(), no_line(), by_rows, line) == SettiStatus::Possible
    &&& !placed_in_line(s, line, num, by_rows)
    &&& miss_clashes(s, num, line, by_rows)
    &&& open_positions(s, line, num, by_rows).len() == 1
}

/// The undecided lines of `status` that `possible` lists include every
/// undecided line.
proof fn lemma_possible_listed(status: [SettiStatus; 9], possible: Seq<usize>, line: int)
    requires
        possible == Seq::new(9, |k: int| k as usize).filter(|k: usize| status[k as int] == SettiStatus::Possible),
        0 <= line < 9, status[line] == SettiStatus::Possible,
    ensures exists|j: int| 0 <= j < possible.len() && possible[j] == line,
{
    let all = Seq::new(9, |k: int| k as usize);
    let p = |k: usize| status[k as int] == SettiStatus::Possible;
    assert(all[line] == line as usize);
    all.lemma_filter_contains(p, line);
    assert(possible.contains(line as usize));
}

/// Setti consider: tries, for each undecided column and then row, whether
/// assuming it misses the digit breaks the count.
pub(crate) fn use_setti_consider(s: &mut HumanStr8ts) -> (res: i32)
    requires old(s).wf(),
    ensures
        strategy_done(*old(s), *final(s), res, H_SETTI_CONSIDER),
        res == 0 <==> !exists|num: u8, line: int, by_rows: bool| #[trigger] consider_applies(*old(s), num, line, by_rows),
        res != 0 ==> exists|num: u8, line: int, by_rows: bool| #[trigger] consider_applies(*old(s), num, line, by_rows) && {
            let rc = line_cell(line, open_positions(*old(s), line, num, by_rows)[0], by_rows);
            digit_placed(*old(s), *final(s), rc.0, rc.1, num)
        },
{
    let ghost s0 = *s;
    proof {
        lemma_tracks_refl(s0);
    }
    let no_forced_rows = [false; 9];
    let no_forced_cols = [false; 9];
    proof {
        assert(no_forced_rows@ =~= no_line());
        assert(no_forced_cols@ =~= no_line());
    }
    let mut num: u8 = 1;
    while num < 10
        invariant
            s0 == *old(s), *s == s0, s0.wf(), 1 <= num <= 10,
            no_forced_rows@ == no_line(), no_forced_cols@ == no_line(),
            forall|n: u8, line: int, by_rows: bool| n < num ==> !#[trigger] consider_applies(s0, n, line, by_rows),
        decreases 10 - num,
    {
        if let Some((_, col_status)) = setti_statuses(s, num, &no_forced_rows, &no_forced_cols) {
            let cols = setti_possible_indices(&col_status);
            let mut k: usize = 0;
            while k < cols.len()
                invariant
                    s0 == *old(s), *s == s0, s0.wf(), 1 <= num <= 9, k <= cols@.len(),
                    forall|k: int| 0 <= k < cols@.len() ==> #[trigger] cols@[k] < 9 && col_status[cols@[k] as int] == SettiStatus::Possible,
                    forall|l: int| 0 <= l < 9 ==> #[trigger] col_status[l] == line_rating(s0, num, no_line(), no_line(), false, l),
                    forall|j: int| 0 <= j < k ==> !#[trigger] consider_applies(s0, num, cols@[j] as int, false),
                decreases cols@.len() - k,
            {
                if consider_line(s, num, cols[k], false) {
                    proof {
                        lemma_strategy_done(s0, *s, true, H_SETTI_CONSIDER);
                        let l = cols@[k as int] as int;
                        assert(col_status[l] == SettiStatus::Possible);
                        assert(col_status[l] == line_rating(s0, num, no_line(), no_line(), false, l));
                        assert(consider_applies(s0, num, l, false));
                    }
                    return H_SETTI_CONSIDER;
                }
                k = k + 1;
            }
            proof {
                assert forall|line: int| !#[trigger] consider_applies(s0, num, line, false) by {
                    if consider_applies(s0, num, line, false) {
                        lemma_possible_listed(col_status, cols@, line);
                        let j = choose|j: int| 0 <= j < cols@.len() && cols@[j] == line;
                        assert(!consider_applies(s0, num, cols@[j] as int, false));
                    }
                }
            }
        } else {
            proof {
                let r = choose|r: int| 0 <= r < 9 && no_forced_rows[r] && #[trigger] placed_in_line(*s, r, num, true);
                let c = choose|c: int| 0 <= c < 9 && no_forced_cols[c] && #[trigger] placed_in_line(*s, c, num, false);
                assert(false);
            }
        }
        if let Some((row_status, _)) = setti_statuses(s, num, &no_forced_rows, &no_forced_cols) {
            let rows = setti_possible_indices(&row_status);
            let mut k: usize = 0;
            while k < rows.len()
                invariant
                    s0 == *old(s), *s == s0, s0.wf(), 1 <= num <= 9, k <= rows@.len(),
                    forall|k: int| 0 <= k < rows@.len() ==> #[trigger] rows@[k] < 9 && row_status[rows@[k] as int] == SettiStatus::Possible,
                    forall|l: int| 0 <= l < 9 ==> #[trigger] row_status[l] == line_rating(s0, num, no_line(), no_line(), true, l),
                    forall|j: int| 0 <= j < k ==> !#[trigger] consider_applies(s0, num, rows@[j] as int, true),
                decreases rows@.len() - k,
            {
                if consider_line(s, num, rows[k], true) {
                    proof {
                        lemma_strategy_done(s0, *s, true, H_SETTI_CONSIDER);
                        let l = rows@[k as int] as int;
                        assert(row_status[l] == SettiStatus::Possible);
                        assert(row_status[l] == line_rating(s0, num, no_line(), no_line(), true, l));
                        assert(consider_applies(s0, num, l, true));
                    }
                    return H_SETTI_CONSIDER;
                }
                k = k + 1;
            }
            proof {
                assert forall|line: int| !#[trigger] consider_applies(s0, num, line, true) by {
                    if consider_applies(s0, num, line, true) {
                        lemma_possible_listed(row_status, rows@, line);
                        let j = choose|j: int| 0 <= j < rows@.len() && rows@[j] == line;
                        assert(!consider_applies(s0, num, rows@[j] as int, true));
                    }
                }
            }
        } else {
            proof {
                let r = choose|r: int| 0 <= r < 9 && no_forced_rows[r] && #[trigger] placed_in_line(*s, r, num, true);
                let c = choose|c: int| 0 <= c < 9 && no_forced_cols[c] && #[trigger] placed_in_line(*s, c, num, false);
                assert(false);
            }
        }
        proof {
            assert forall|n: u8, line: int, by_rows: bool| n < num + 1 implies !#[trigger] consider_applies(s0, n, line, by_rows) by {
                if n == num {
                    if by_rows {
                        assert(!consider_applies(s0, num, line, true));
                    } else {
                        assert(!consider_applies(s0, num, line, false));
                    }
                }
            }
        }
        num = num + 1;
    }
    proof {
        lemma_strategy_done(s0, *s, false, H_SETTI_CONSIDER);
        assert forall|n: u8, line: int, by_rows: bool| !#[trigger] consider_applies(s0, n, line, by_rows) by {
            if n >= 10 {
                assert(!is_digit(n));
            }
        }
    }
    0
}

/// The lines of direction `by_rows` rating `which`, counted for each of the
/// first `j` digits of `ds` and summed.
pub open spec fn set_count(s: HumanStr8ts, ds: Seq<u8>, by_rows: bool, which: SettiStatus, j: int) -> int
    decreases j,
{
    if j <= 0 {
        0
    } else {
        set_count(s, ds, by_rows, which, j - 1) + count_rated(s, ds[j - 1], no_line(), no_line(), by_rows, which, 9)
    }
}

/// Setti's rule over the set of digits `ds` changes the board: the summed
/// bounds pin the missing count, and settling one digit's undecided line bites.
pub open spec fn set_bites(s: HumanStr8ts, ds: Seq<u8>) -> bool {
    let n = ds.len() as int;
    let min_r = set_count(s, ds, true, SettiStatus::Missing, n);
    let max_r = min_r + set_count(s, ds, true, SettiStatus::Possible, n);
    let min_c = set_count(s, ds, false, SettiStatus::Missing, n);
    let max_c = min_c + set_count(s, ds, false, SettiStatus::Possible, n);
    let lo = if min_r > min_c { min_r } else { min_c };
    let hi = if max_r < max_c { max_r } else { max_c };
    &&& lo == hi
    &&& exists|pass: int, k: int, line: int| 0 <= pass < 4 && 0 <= k < n && 0 <= line < 9 && pass_bound(pass, min_r, max_r, min_c, max_c) == lo
        && free_ratings(s, ds[k], pass_rows(pass))[line] == SettiStatus::Possible
        && #[trigger] line_op_bites(s, ds[k], line, pass_rows(pass), pass_places(pass))
}

/// Setti's rule over a set of two or three digits: their missing counts add up.
#[verifier::spinoff_prover]
#[verifier::rlimit(100)]
fn setti_set_for(s: &mut HumanStr8ts, digits: &Vec<u8>) -> (found: bool)
    requires old(s).wf(), digits@.len() <= 3, forall|k: int| 0 <= k < digits@.len() ==> is_digit(#[trigger] digits@[k]),
    ensures
        found ==> tracks(*old(s), *final(s), true),
        !found ==> *final(s) == *old(s),
        found <==> set_bites(*old(s), digits@),
{
    let ghost s0 = *s;
    let ghost ds = digits@;
    let ghost n = digits@.len() as int;
    let no_forced_rows = [false; 9];
    let no_forced_cols = [false; 9];
    proof {
        assert(no_forced_rows@ =~= no_line());
        assert(no_forced_cols@ =~= no_line());
    }
    let mut row_by_digit: Vec<[SettiStatus; 9]> = Vec::new();
    let mut col_by_digit: Vec<[SettiStatus; 9]> = Vec::new();
    let mut k: usize = 0;
    while k < digits.len()
        invariant
            *s == s0, s0.wf(), k <= digits@.len(), ds == digits@,
            forall|k: int| 0 <= k < digits@.len() ==> is_digit(#[trigger] digits@[k]),
            no_forced_rows@ == no_line(), no_forced_cols@ == no_line(),
            row_by_digit@.len() == k, col_by_digit@.len() == k,
            forall|i: int, l: int| 0 <= i < k && 0 <= l < 9 ==> #[trigger] row_by_digit@[i][l] == line_rating(s0, ds[i], no_line(), no_line(), true, l),
            forall|i: int, l: int| 0 <= i < k && 0 <= l < 9 ==> #[trigger] col_by_digit@[i][l] == line_rating(s0, ds[i], no_line(), no_line(), false, l),
        decreases digits@.len() - k,
    {
        match setti_statuses(s, digits[k], &no_forced_rows, &no_forced_cols) {
            None => {
                proof {
                    let r = choose|r: int| 0 <= r < 9 && no_forced_rows[r] && #[trigger] placed_in_line(*s, r, digits@[k as int], true);
                    let c = choose|c: int| 0 <= c < 9 && no_forced_cols[c] && #[trigger] placed_in_line(*s, c, digits@[k as int], false);
                    assert(false);
                }
                return false;
            },
            Some((row_status, col_status)) => {
                row_by_digit.push(row_status);
                col_by_digit.push(col_status);
                proof {
                    assert(row_by_digit@[k as int] == row_status);
                    assert(col_by_digit@[k as int] == col_status);
                }
            },
        }
        k = k + 1;
    }
    let mut row_min: i32 = 0;
    let mut row_max: i32 = 0;
    let mut col_min: i32 = 0;
    let mut col_max: i32 = 0;
    let mut k: usize = 0;
    while k < digits.len()
        invariant
            digits@.len() <= 3, k <= digits@.len(), ds == digits@,
            row_by_digit@.len() == digits@.len(), col_by_digit@.len() == digits@.len(),
            forall|i: int, l: int| 0 <= i < digits@.len() && 0 <= l < 9 ==> #[trigger] row_by_digit@[i][l] == line_rating(s0, ds[i], no_line(), no_line(), true, l),
            forall|i: int, l: int| 0 <= i < digits@.len() && 0 <= l < 9 ==> #[trigger] col_by_digit@[i][l] == line_rating(s0, ds[i], no_line(), no_line(), false, l),
            0 <= row_min <= 9 * k, 0 <= row_max <= 18 * k, 0 <= col_min <= 9 * k, 0 <= col_max <= 18 * k,
            row_min == set_count(s0, ds, true, SettiStatus::Missing, k as int),
            row_max == set_count(s0, ds, true, SettiStatus::Missing, k as int) + set_count(s0, ds, true, SettiStatus::Possible, k as int),
            col_min == set_count(s0, ds, false, SettiStatus::Missing, k as int),
            col_max == set_count(s0, ds, false, SettiStatus::Missing, k as int) + set_count(s0, ds, false, SettiStatus::Possible, k as int),
        decreases digits@.len() - k,
    {
        let (mn_r, mx_r) = setti_missing_bounds(&row_by_digit[k]);
        let (mn_c, mx_c) = setti_missing_bounds(&col_by_digit[k]);
        proof {
            let rs = row_by_digit@[k as int];
            let cs = col_by_digit@[k as int];
            assert forall|l: int| 0 <= l < 9 implies #[trigger] rs[l] == line_rating(s0, ds[k as int], no_line(), no_line(), true, l) by {
                assert(row_by_digit@[k as int][l] == line_rating(s0, ds[k as int], no_line(), no_line(), true, l));
            }
            assert forall|l: int| 0 <= l < 9 implies #[trigger] cs[l] == line_rating(s0, ds[k as int], no_line(), no_line(), false, l) by {
                assert(col_by_digit@[k as int][l] == line_rating(s0, ds[k as int], no_line(), no_line(), false, l));
            }
            lemma_count_rated(rs, s0, ds[k as int], no_line(), no_line(), true, SettiStatus::Missing, 9);
            lemma_count_rated(rs, s0, ds[k as int], no_line(), no_line(), true, SettiStatus::Possible, 9);
            lemma_count_rated(cs, s0, ds[k as int], no_line(), no_line(), false, SettiStatus::Missing, 9);
            lemma_count_rated(cs, s0, ds[k as int], no_line(), no_line(), false, SettiStatus::Possible, 9);
        }
        row_min = row_min + mn_r;
        row_max = row_max + mx_r;
        col_min = col_min + mn_c;
        col_max = col_max + mx_c;
        k = k + 1;
    }
    let lo = if row_min > col_min { row_min } else { col_min };
    let hi = if row_max < col_max { row_max } else { col_max };
    if lo != hi {
        proof {
            assert(!set_bites(s0, ds));
        }
        return false;
    }
    let total_missing = lo;
    let ghost (mr, xr, mc, xc, ms) = (row_min as int, row_max as int, col_min as int, col_max as int, lo as int);
    let mut eff = false;
    proof {
        lemma_tracks_refl(s0);
    }
    let mut pass: usize = 0;
    while pass < 4
        invariant
            s0 == *old(s), s0.wf(), tracks(s0, *s, eff), pass <= 4, ds == digits@, n == ds.len(),
            !eff ==> *s == s0,
            forall|k: int| 0 <= k < digits@.len() ==> is_digit(#[trigger] digits@[k]),
            row_by_digit@.len() == digits@.len(), col_by_digit@.len() == digits@.len(),
            forall|i: int, l: int| 0 <= i < digits@.len() && 0 <= l < 9 ==> #[trigger] row_by_digit@[i][l] == line_rating(s0, ds[i], no_line(), no_line(), true, l),
            forall|i: int, l: int| 0 <= i < digits@.len() && 0 <= l < 9 ==> #[trigger] col_by_digit@[i][l] == line_rating(s0, ds[i], no_line(), no_line(), false, l),
            mr == row_min, xr == row_max, mc == col_min, xc == col_max, ms == total_missing,
            eff <==> exists|p: int, k: int, line: int| 0 <= p < pass && 0 <= k < n && 0 <= line < 9 && pass_bound(p, mr, xr, mc, xc) == ms
                && free_ratings(s0, ds[k], pass_rows(p))[line] == SettiStatus::Possible
                && #[trigger] line_op_bites(s0, ds[k], line, pass_rows(p), pass_places(p)),
        decreases 4 - pass,
    {
        let by_rows = pass == 0 || pass == 2;
        let bound = if pass == 0 { row_max } else if pass == 1 { col_max } else if pass == 2 { row_min } else { col_min };
        let ghost eff_p = eff;
        proof {
            assert(by_rows == pass_rows(pass as int));
            assert(pass_bound(pass as int, mr, xr, mc, xc) == bound as int);
        }
        if bound == total_missing {
            let mut k: usize = 0;
            while k < digits.len()
                invariant
                    s0 == *old(s), s0.wf(), tracks(s0, *s, eff), pass < 4, k <= digits@.len(), ds == digits@, n == ds.len(),
                    !eff ==> *s == s0,
                    by_rows == pass_rows(pass as int),
                    forall|k: int| 0 <= k < digits@.len() ==> is_digit(#[trigger] digits@[k]),
                    row_by_digit@.len() == digits@.len(), col_by_digit@.len() == digits@.len(),
                    forall|i: int, l: int| 0 <= i < digits@.len() && 0 <= l < 9 ==> #[trigger] row_by_digit@[i][l] == line_rating(s0, ds[i], no_line(), no_line(), true, l),
                    forall|i: int, l: int| 0 <= i < digits@.len() && 0 <= l < 9 ==> #[trigger] col_by_digit@[i][l] == line_rating(s0, ds[i], no_line(), no_line(), false, l),
                    eff <==> eff_p || exists|kk: int, line: int| 0 <= kk < k && 0 <= line < 9
                        && free_ratings(s0, ds[kk], by_rows)[line] == SettiStatus::Possible
                        && #[trigger] line_op_bites(s0, ds[kk], line, by_rows, pass_places(pass as int)),
                decreases digits@.len() - k,
            {
                let d = digits[k];
                let ghost eff_k = eff;
                let lines = if by_rows { setti_possible_indices(&row_by_digit[k]) } else { setti_possible_indices(&col_by_digit[k]) };
                let ghost st = if by_rows { row_by_digit@[k as int] } else { col_by_digit@[k as int] };
                proof {
                    assert forall|l: int| 0 <= l < 9 implies #[trigger] st[l] == free_ratings(s0, d, by_rows)[l] by {
                        if by_rows {
                            assert(row_by_digit@[k as int][l] == line_rating(s0, ds[k as int], no_line(), no_line(), true, l));
                        } else {
                            assert(col_by_digit@[k as int][l] == line_rating(s0, ds[k as int], no_line(), no_line(), false, l));
                        }
                    }
                }
                let mut j: usize = 0;
                while j < lines.len()
                    invariant
                        s0 == *old(s), s0.wf(), tracks(s0, *s, eff), is_digit(d), j <= lines@.len(), pass < 4,
                        !eff ==> *s == s0,
                        lines@ == Seq::new(9, |k: int| k as usize).filter(|k: usize| st[k as int] == SettiStatus::Possible),
                        forall|i: int| 0 <= i < lines@.len() ==> #[trigger] lines@[i] < 9 && st[lines@[i] as int] == SettiStatus::Possible,
                        eff <==> eff_k || exists|jj: int| 0 <= jj < j && #[trigger] line_op_bites(s0, d, lines@[jj] as int, by_rows, pass_places(pass as int)),
                    decreases lines@.len() - j,
                {
                    let line = lines[j];
                    let ghost before = *s;
                    let ghost eff_b = eff;
                    let e = if pass < 2 {
                        setti_remove_from_line(s, line, d, by_rows)
                    } else {
                        setti_place_if_single_in_line(s, line, d, by_rows)
                    };
                    proof {
                        if !e && pass >= 2 {
                            lemma_tracks_refl(before);
                        }
                        lemma_tracks_chain(s0, before, *s, eff, e);
                        if !eff_b {
                            assert(e <==> line_op_bites(s0, d, line as int, by_rows, pass_places(pass as int)));
                        }
                    }
                    if e {
                        eff = true;
                    }
                    proof {
                        assert(eff <==> eff_k || exists|jj: int| 0 <= jj < j + 1 && #[trigger] line_op_bites(s0, d, lines@[jj] as int, by_rows, pass_places(pass as int))) by {
                            if exists|jj: int| 0 <= jj < j + 1 && #[trigger] line_op_bites(s0, d, lines@[jj] as int, by_rows, pass_places(pass as int)) {
                                let jj = choose|jj: int| 0 <= jj < j + 1 && #[trigger] line_op_bites(s0, d, lines@[jj] as int, by_rows, pass_places(pass as int));
                                if jj < j {
                                    assert(exists|jj: int| 0 <= jj < j && #[trigger] line_op_bites(s0, d, lines@[jj] as int, by_rows, pass_places(pass as int)));
                                }
                            }
                        }
                    }
                    j = j + 1;
                }
                proof {
                    assert(eff <==> eff_p || exists|kk: int, line: int| 0 <= kk < k + 1 && 0 <= line < 9
                        && free_ratings(s0, ds[kk], by_rows)[line] == SettiStatus::Possible
                        && #[trigger] line_op_bites(s0, ds[kk], line, by_rows, pass_places(pass as int))) by {
                        if exists|kk: int, line: int| 0 <= kk < k + 1 && 0 <= line < 9
                            && free_ratings(s0, ds[kk], by_rows)[line] == SettiStatus::Possible
                            && #[trigger] line_op_bites(s0, ds[kk], line, by_rows, pass_places(pass as int)) {
                            let (kk, line) = choose|kk: int, line: int| 0 <= kk < k + 1 && 0 <= line < 9
                                && free_ratings(s0, ds[kk], by_rows)[line] == SettiStatus::Possible
                                && #[trigger] line_op_bites(s0, ds[kk], line, by_rows, pass_places(pass as int));
                            if kk < k {
                                assert(exists|kk: int, line: int| 0 <= kk < k && 0 <= line < 9
                                    && free_ratings(s0, ds[kk], by_rows)[line] == SettiStatus::Possible
                                    && #[trigger] line_op_bites(s0, ds[kk], line, by_rows, pass_places(pass as int)));
                            } else {
                                assert(st[line] == SettiStatus::Possible);
                                let t = Seq::new(9, |k: int| k as usize);
                                assert(t[line] == line as usize);
                                t.lemma_filter_contains(|k: usize| st[k as int] == SettiStatus::Possible, line);
                                assert(lines@.contains(line as usize));
                                let jj = choose|jj: int| 0 <= jj < lines@.len() && lines@[jj] == line as usize;
                                assert(line_op_bites(s0, d, lines@[jj] as int, by_rows, pass_places(pass as int)));
                            }
                        }
                        if eff && !eff_p && !eff_k {
                            let jj = choose|jj: int| 0 <= jj < lines@.len() && #[trigger] line_op_bites(s0, d, lines@[jj] as int, by_rows, pass_places(pass as int));
                            assert(ds[k as int] == d);
                            assert(line_op_bites(s0, ds[k as int], lines@[jj] as int, by_rows, pass_places(pass as int)));
                        }
                    }
                }
                k = k + 1;
            }
        }
        proof {
            assert(eff <==> exists|p: int, k: int, line: int| 0 <= p < pass + 1 && 0 <= k < n && 0 <= line < 9 && pass_bound(p, mr, xr, mc, xc) == ms
                && free_ratings(s0, ds[k], pass_rows(p))[line] == SettiStatus::Possible
                && #[trigger] line_op_bites(s0, ds[k], line, pass_rows(p), pass_places(p))) by {
                if exists|p: int, k: int, line: int| 0 <= p < pass + 1 && 0 <= k < n && 0 <= line < 9 && pass_bound(p, mr, xr, mc, xc) == ms
                    && free_ratings(s0, ds[k], pass_rows(p))[line] == SettiStatus::Possible
                    && #[trigger] line_op_bites(s0, ds[k], line, pass_rows(p), pass_places(p)) {
                    let (p, k, line) = choose|p: int, k: int, line: int| 0 <= p < pass + 1 && 0 <= k < n && 0 <= line < 9 && pass_bound(p, mr, xr, mc, xc) == ms
                        && free_ratings(s0, ds[k], pass_rows(p))[line] == SettiStatus::Possible
                        && #[trigger] line_op_bites(s0, ds[k], line, pass_rows(p), pass_places(p));
                    if p < pass {
                        assert(exists|p: int, k: int, line: int| 0 <= p < pass && 0 <= k < n && 0 <= line < 9 && pass_bound(p, mr, xr, mc, xc) == ms
                            && free_ratings(s0, ds[k], pass_rows(p))[line] == SettiStatus::Possible
                            && #[trigger] line_op_bites(s0, ds[k], line, pass_rows(p), pass_places(p)));
                    } else {
                        assert(bound == total_missing);
                        assert(line_op_bites(s0, ds[k], line, by_rows, pass_places(pass as int)));
                    }
                }
                if eff && !eff_p {
                    assert(bound == total_missing);
                    let (kk, line) = choose|kk: int, line: int| 0 <= kk < n && 0 <= line < 9
                        && free_ratings(s0, ds[kk], by_rows)[line] == SettiStatus::Possible
                        && #[trigger] line_op_bites(s0, ds[kk], line, by_rows, pass_places(pass as int));
                    assert(line_op_bites(s0, ds[kk], line, pass_rows(pass as int), pass_places(pass as int)));
                }
            }
        }
        pass = pass + 1;
    }
    if eff {
        return true;
    }
    proof {
        lemma_no_progress(s0, *s);
    }
    false
}

/// The digits `c[j] + 1` of an increasing choice `c` of positions below 9.
pub open spec fn choice_digits(c: Seq<usize>) -> Seq<u8> {
    Seq::new(c.len(), |j: int| (c[j] + 1) as u8)
}

/// Setti's rule changes the board for some set of two or three digits.
pub open spec fn setti_set_anywhere(s: HumanStr8ts) -> bool {
    exists|c: Seq<usize>| (c.len() == 2 || c.len() == 3) && increasing_below(c, 9) && #[trigger] set_bites(s, choice_digits(c))
}

/// Setti set: Setti's rule for sets of two, then three digits.
pub(crate) fn use_setti_set(s: &mut HumanStr8ts) -> (res: i32)
    requires old(s).wf(),
    ensures
        strategy_done(*old(s), *final(s), res, H_SETTI_SET),
        res == 0 <==> !setti_set_anywhere(*old(s)),
{
    let ghost s0 = *s;
    proof {
        lemma_tracks_refl(s0);
    }
    let mut set_size: usize = 2;
    while set_size < 4
        invariant
            s0 == *old(s), *s == s0, s0.wf(), 2 <= set_size <= 4,
            forall|c: Seq<usize>| 2 <= c.len() < set_size && increasing_below(c, 9) ==> !#[trigger] set_bites(s0, choice_digits(c)),
        decreases 4 - set_size,
    {
        let combos = combinations(9, set_size);
        let mut ci: usize = 0;
        while ci < combos.len()
            invariant
                s0 == *old(s), *s == s0, s0.wf(), 2 <= set_size <= 3, ci <= combos@.len(),
                forall|i: int| 0 <= i < combos@.len() ==> (#[trigger] combos@[i])@.len() == set_size && increasing_below(combos@[i]@, 9),
                forall|c: Seq<usize>| c.len() == set_size && #[trigger] increasing_below(c, 9 as nat) ==> listed_choice(combos@, c),
                forall|c: Seq<usize>| 2 <= c.len() < set_size && increasing_below(c, 9) ==> !#[trigger] set_bites(s0, choice_digits(c)),
                forall|i: int| 0 <= i < ci ==> !#[trigger] set_bites(s0, choice_digits(combos@[i]@)),
            decreases combos@.len() - ci,
        {
            let combo = &combos[ci];
            proof {
                assert(combos@[ci as int]@.len() == set_size && increasing_below(combos@[ci as int]@, 9));
            }
            let mut digits: Vec<u8> = Vec::new();
            let mut j: usize = 0;
            while j < combo.len()
                invariant
                    increasing_below(combo@, 9), j <= combo@.len(),
                    digits@ == choice_digits(combo@.take(j as int)),
                    forall|k: int| 0 <= k < digits@.len() ==> is_digit(#[trigger] digits@[k]),
                decreases combo@.len() - j,
            {
                digits.push(combo[j] as u8 + 1);
                proof {
                    assert(digits@ =~= choice_digits(combo@.take(j + 1)));
                }
                j = j + 1;
            }
            proof {
                assert(combo@.take(combo@.len() as int) == combo@);
            }
            if setti_set_for(s, &digits) {
                proof {
                    lemma_strategy_done(s0, *s, true, H_SETTI_SET);
                    assert(set_bites(s0, choice_digits(combo@)));
                    assert(setti_set_anywhere(s0));
                }
                return H_SETTI_SET;
            }
            ci = ci + 1;
        }
        proof {
            assert forall|c: Seq<usize>| 2 <= c.len() < set_size + 1 && increasing_below(c, 9) implies !#[trigger] set_bites(s0, choice_digits(c)) by {
                if c.len() == set_size {
                    assert(listed_choice(combos@, c));
                    let i = choose|i: int| 0 <= i < combos@.len() && (#[trigger] combos@[i])@ == c;
                    assert(!set_bites(s0, choice_digits(combos@[i]@)));
                }
            }
        }
        set_size = set_size + 1;
    }
    proof {
        lemma_strategy_done(s0, *s, false, H_SETTI_SET);
    }
    0
}

} // verus!
