//! The binary guess: for a cell with two candidates, try both digits on a
//! copy of the board with every other strategy; a digit that leads to a
//! dead end is ruled out, and what both tries remove goes.
use vstd::prelude::*;
use crate::board::{HumanStr8ts, N};
use crate::candidates::{board_valid, copy_board, copy_of, count_digits, digits_of, is_done, is_valid, lemma_digits_of, mask_values};
use crate::hardness::H_BINARY_GUESS;
use crate::mask::{bit_of, has_digit, is_digit};
use crate::moves::{
    add_digit, lemma_no_progress, lemma_strategy_done, lemma_tracks_chain, lemma_tracks_refl, lemma_weight_drops, narrow,
    progress, propagate_add, steps, strategy_done, tracks, weight,
};
use crate::order::{StrategyKind, StrategySpec, apply_basic_strategy, kind_h, none_found, param_ok, specs_ok, strategy_order};

verus! {

/// Runs a strategy; when it made progress, the digits it placed are then
/// struck from their rows and columns.
pub(crate) fn apply_ordered_strategy_with_post_propagation(s: &mut HumanStr8ts, kind: StrategyKind, param: usize) -> (h: i32)
    requires old(s).wf(), param_ok(kind, param as int), kind != StrategyKind::BinaryGuess,
    ensures
        tracks(*old(s), *final(s), h != 0),
        h == 0 || h == kind_h(kind, param as int),
        none_found(kind, param as int, *old(s), *final(s), h),
{
    let ghost s0 = *s;
    let was_solved = s.solved;
    let h = apply_basic_strategy(s, kind, param);
    if h <= 0 {
        return h;
    }
    let ghost s1 = *s;
    for r in 0..N
        invariant s0.wf(), s1.wf(), tracks(s0, s1, true), steps(s1, *s),
    {
        for c in 0..N
            invariant s0.wf(), s1.wf(), tracks(s0, s1, true), steps(s1, *s), r < 9,
        {
            if !was_solved[r][c] && s.solved[r][c] {
                let ghost before = *s;
                let num = s.numbers[r][c];
                propagate_add(s, r, c, num);
                proof {
                    lemma_tracks_chain(s1, before, *s, progress(s1, before), progress(before, *s));
                }
            }
        }
    }
    proof {
        lemma_tracks_chain(s0, s1, *s, true, progress(s1, *s));
    }
    h
}

/// Runs the strategies other than the binary guess, easiest first, until the
/// board is done, has a cell without candidates, or none of them helps.
pub(crate) fn propagate_without_binary_guess_for_trial(s: &mut HumanStr8ts, specs: &Vec<StrategySpec>)
    requires old(s).wf(), specs_ok(specs@),
    ensures steps(*old(s), *final(s)),
{
    let ghost s0 = *s;
    proof {
        lemma_tracks_refl(s0);
        lemma_weight_drops(s0, s0);
    }
    loop
        invariant s0 == *old(s), s0.wf(), steps(s0, *s), specs_ok(specs@), weight(*s) >= 0,
        decreases weight(*s),
    {
        if is_done(s) || !is_valid(s) {
            break;
        }
        let ghost start = *s;
        proof {
            lemma_tracks_refl(start);
        }
        let mut moved = false;
        let mut k: usize = 0;
        while k < specs.len() && !moved
            invariant
                start.wf(), specs_ok(specs@),
                tracks(start, *s, moved),
            decreases specs@.len() - k,
        {
            let spec = specs[k];
            proof {
                assert(param_ok(specs@[k as int].kind, specs@[k as int].param as int));
            }
            if spec.kind != StrategyKind::BinaryGuess {
                let ghost before = *s;
                let h = apply_ordered_strategy_with_post_propagation(s, spec.kind, spec.param);
                proof {
                    lemma_tracks_chain(start, before, *s, moved, h != 0);
                }
                if h != 0 {
                    moved = true;
                }
            }
            k = k + 1;
        }
        proof {
            lemma_weight_drops(start, *s);
            lemma_tracks_chain(s0, start, *s, progress(s0, start), moved);
        }
        if !moved {
            break;
        }
    }
}

/// What the binary guess found at its focus cell: a digit it must take, or
/// candidates that both tries removed.
pub(crate) struct BinaryGuessOutcome {
    pub focus_row: usize,
    pub focus_col: usize,
    pub forced_value: Option<u8>,
    pub common_removals: Vec<(usize, usize, u16)>,
}

/// `b` is `a` with the cell `(r, c)` solved as `num` (unless it was solved)
/// and `num` struck from the other white cells of its row and column.
pub open spec fn placed_and_struck(a: HumanStr8ts, b: HumanStr8ts, r: int, c: int, num: u8) -> bool {
    forall|i: int, j: int| 0 <= i < 9 && 0 <= j < 9 ==> {
        let here = i == r && j == c && !a.solved[i][j];
        let line = !a.is_black[i][j] && ((i == r && j != c) || (j == c && i != r));
        let base: u16 = if here { bit_of(num) } else { a.candidates[i][j] };
        &&& #[trigger] b.solved[i][j] == (a.solved[i][j] || here)
        &&& b.numbers[i][j] == if here { num } else { a.numbers[i][j] }
        &&& b.candidates[i][j] == if line { base & !bit_of(num) } else { base }
    }
}

/// The trial of `d` at `(r, c)` can reach `u`: on a copy of `s`, `d` is
/// placed there and struck from its row and column, and strategy moves lead
/// on to `u`.
pub open spec fn trial_reaches(s: HumanStr8ts, r: int, c: int, d: u8, u: HumanStr8ts) -> bool {
    exists|t: HumanStr8ts, p: HumanStr8ts| copy_of(t, s) && #[trigger] placed_and_struck(t, p, r, c, d) && steps(p, u)
}

/// Forcing `v` at `(r, c)` is justified: `v` is a candidate there whose trial
/// ends on a board with every cell still holding a candidate, while the trial
/// of the other candidate ends with a cell left without any.
#[verifier::opaque]
pub open spec fn forced_ok(s: HumanStr8ts, r: int, c: int, v: u8) -> bool {
    &&& is_digit(v) && has_digit(s.candidates[r][c], v)
    &&& exists|u: HumanStr8ts| #[trigger] trial_reaches(s, r, c, v, u) && board_valid(u)
    &&& exists|w: u8, u: HumanStr8ts| w != v && is_digit(w) && has_digit(s.candidates[r][c], w) && #[trigger] trial_reaches(s, r, c, w, u)
        && !board_valid(u)
}

/// What a forced value of the binary guess means: its trial can stay valid,
/// and the trial of another candidate of the cell runs into a cell without
/// candidates.
pub proof fn law_forced_value(s: HumanStr8ts, r: int, c: int, v: u8)
    requires forced_ok(s, r, c, v),
    ensures
        is_digit(v) && has_digit(s.candidates[r][c], v),
        exists|u: HumanStr8ts| #[trigger] trial_reaches(s, r, c, v, u) && board_valid(u),
        exists|w: u8, u: HumanStr8ts| w != v && is_digit(w) && has_digit(s.candidates[r][c], w) && #[trigger] trial_reaches(s, r, c, w, u)
            && !board_valid(u),
{
    reveal(forced_ok);
}

/// Solves `(r, c)` with `num` and strikes `num` from its row and column.
fn add_with_propagation(s: &mut HumanStr8ts, r: usize, c: usize, num: u8)
    requires
        old(s).wf(), r < 9, c < 9, is_digit(num),
        !old(s).is_black[r as int][c as int],
        has_digit(old(s).candidates[r as int][c as int], num),
    ensures
        final(s).wf(),
        steps(*old(s), *final(s)),
        forall|i: int, j: int| 0 <= i < 9 && 0 <= j < 9 ==> {
            let here = i == r && j == c && !old(s).solved[i][j];
            let line = !old(s).is_black[i][j] && ((i == r && j != c) || (j == c && i != r));
            let base: u16 = if here { bit_of(num) } else { old(s).candidates[i][j] };
            &&& #[trigger] final(s).solved[i][j] == (old(s).solved[i][j] || here)
            &&& final(s).numbers[i][j] == if here { num } else { old(s).numbers[i][j] }
            &&& final(s).candidates[i][j] == if line { base & !bit_of(num) } else { base }
        },
        placed_and_struck(*old(s), *final(s), r as int, c as int, num),
{
    let ghost s0 = *s;
    add_digit(s, r, c, num);
    let ghost s1 = *s;
    propagate_add(s, r, c, num);
    proof {
        lemma_tracks_chain(s0, s1, *s, progress(s0, s1), progress(s1, *s));
        assert forall|i: int, j: int| 0 <= i < 9 && 0 <= j < 9 implies {
            let here = i == r && j == c && !s0.solved[i][j];
            let line = !s0.is_black[i][j] && ((i == r && j != c) || (j == c && i != r));
            let base: u16 = if here { bit_of(num) } else { s0.candidates[i][j] };
            &&& #[trigger] s.solved[i][j] == (s0.solved[i][j] || here)
            &&& s.numbers[i][j] == if here { num } else { s0.numbers[i][j] }
            &&& s.candidates[i][j] == if line { base & !bit_of(num) } else { base }
        } by {
            assert(s.candidates[i][j] == if !s1.is_black[i][j] && ((i == r && j != c) || (j == c && i != r)) {
                s1.candidates[i][j] & !bit_of(num)
            } else {
                s1.candidates[i][j]
            });
        }
    }
}

/// The candidates each unsolved white cell lost from `base` to `trial`.
fn collect_trial_removals(base: &HumanStr8ts, trial: &HumanStr8ts) -> (removed: [[u16; N]; N])
    ensures
        forall|r: int, c: int| 0 <= r < 9 && 0 <= c < 9 ==> #[trigger] removed[r][c] == if base.is_black[r][c] || base.solved[r][c] {
            0u16
        } else {
            base.candidates[r][c] & !trial.candidates[r][c]
        },
{
    let mut removed = [[0u16; N]; N];
    for r in 0..N
        invariant
            forall|i: int, c: int| 0 <= i < 9 && 0 <= c < 9 ==> #[trigger] removed[i][c] == if i >= r || base.is_black[i][c] || base.solved[i][c] {
                0u16
            } else {
                base.candidates[i][c] & !trial.candidates[i][c]
            },
    {
        let mut row = removed[r];
        for c in 0..N
            invariant
                r < 9,
                forall|j: int| 0 <= j < 9 ==> #[trigger] row[j] == if j >= c || base.is_black[r as int][j] || base.solved[r as int][j] {
                    0u16
                } else {
                    base.candidates[r as int][j] & !trial.candidates[r as int][j]
                },
        {
            if !base.is_black[r][c] && !base.solved[r][c] {
                row[c] = base.candidates[r][c] & !trial.candidates[r][c];
            }
        }
        removed[r] = row;
    }
    removed
}

/// Tries both digits of the two-candidate cell `(r, c)`.
fn guess_at(s: &HumanStr8ts, specs: &Vec<StrategySpec>, r: usize, c: usize) -> (res: Option<BinaryGuessOutcome>)
    requires s.wf(), specs_ok(specs@), r < 9, c < 9, !s.is_black[r as int][c as int],
    ensures
        res matches Some(o) ==> {
            &&& o.focus_row == r && o.focus_col == c
            &&& o.forced_value matches Some(v) ==> is_digit(v) && has_digit(s.candidates[r as int][c as int], v)
            &&& forall|k: int| 0 <= k < o.common_removals@.len() ==> (#[trigger] o.common_removals@[k]).0 < 9 && o.common_removals@[k].1 < 9 && !s.is_black[o.common_removals@[k].0 as int][o.common_removals@[k].1 as int]
        },
        res matches Some(o) ==> (o.forced_value matches Some(v) ==> forced_ok(*s, r as int, c as int, v)),
{
    let vals = mask_values(s.candidates[r][c]);
    proof {
        lemma_digits_of(s.candidates[r as int][c as int]);
    }
    if vals.len() != 2 {
        return None;
    }
    let mut trial0 = copy_board(s);
    let ghost t0 = trial0;
    add_with_propagation(&mut trial0, r, c, vals[0]);
    let ghost p0 = trial0;
    propagate_without_binary_guess_for_trial(&mut trial0, specs);
    let contradiction0 = !is_valid(&trial0);
    let mut trial1 = copy_board(s);
    let ghost t1 = trial1;
    add_with_propagation(&mut trial1, r, c, vals[1]);
    let ghost p1 = trial1;
    propagate_without_binary_guess_for_trial(&mut trial1, specs);
    let contradiction1 = !is_valid(&trial1);
    proof {
        assert(trial_reaches(*s, r as int, c as int, vals@[0], trial0)) by {
            assert(copy_of(t0, *s) && placed_and_struck(t0, p0, r as int, c as int, vals@[0]) && steps(p0, trial0));
        }
        assert(trial_reaches(*s, r as int, c as int, vals@[1], trial1)) by {
            assert(copy_of(t1, *s) && placed_and_struck(t1, p1, r as int, c as int, vals@[1]) && steps(p1, trial1));
        }
        assert(vals@[0] < vals@[1]);
        reveal(forced_ok);
    }
    if contradiction0 != contradiction1 {
        let chosen = if contradiction0 { vals[1] } else { vals[0] };
        return Some(BinaryGuessOutcome { focus_row: r, focus_col: c, forced_value: Some(chosen), common_removals: Vec::new() });
    }
    if !contradiction0 && !contradiction1 {
        let removed1 = collect_trial_removals(s, &trial0);
        let removed2 = collect_trial_removals(s, &trial1);
        let mut common_removals: Vec<(usize, usize, u16)> = Vec::new();
        for rr in 0..N
            invariant
                forall|i: int, j: int| 0 <= i < 9 && 0 <= j < 9 && s.is_black[i][j] ==> #[trigger] removed1[i][j] == 0,
                forall|k: int| 0 <= k < common_removals@.len() ==> (#[trigger] common_removals@[k]).0 < 9 && common_removals@[k].1 < 9 && !s.is_black[common_removals@[k].0 as int][common_removals@[k].1 as int],
        {
            for cc in 0..N
                invariant
                    rr < 9,
                    forall|i: int, j: int| 0 <= i < 9 && 0 <= j < 9 && s.is_black[i][j] ==> #[trigger] removed1[i][j] == 0,
                    forall|k: int| 0 <= k < common_removals@.len() ==> (#[trigger] common_removals@[k]).0 < 9 && common_removals@[k].1 < 9 && !s.is_black[common_removals@[k].0 as int][common_removals@[k].1 as int],
            {
                let rem1 = removed1[rr][cc];
                let rem2 = removed2[rr][cc];
                if rem1 != 0 && rem2 != 0 {
                    let common = rem1 & rem2;
                    if common != 0 {
                        let old_mask = s.candidates[rr][cc];
                        let new_mask = old_mask & !common;
                        if new_mask != old_mask {
                            common_removals.push((rr, cc, common));
                        }
                    }
                }
            }
        }
        if common_removals.len() > 0 {
            return Some(BinaryGuessOutcome { focus_row: r, focus_col: c, forced_value: None, common_removals });
        }
    }
    None
}

/// The first unsolved two-candidate cell, in row-major order, where guessing
/// either digit tells something.
pub(crate) fn analyze_binary_guess(s: &HumanStr8ts, specs: &Vec<StrategySpec>) -> (res: Option<BinaryGuessOutcome>)
    requires s.wf(), specs_ok(specs@),
    ensures
        res matches Some(o) ==> {
            &&& o.focus_row < 9 && o.focus_col < 9
            &&& !s.is_black[o.focus_row as int][o.focus_col as int]
            &&& !s.solved[o.focus_row as int][o.focus_col as int]
            &&& o.forced_value matches Some(v) ==> is_digit(v) && has_digit(s.candidates[o.focus_row as int][o.focus_col as int], v)
            &&& forall|k: int| 0 <= k < o.common_removals@.len() ==> (#[trigger] o.common_removals@[k]).0 < 9 && o.common_removals@[k].1 < 9 && !s.is_black[o.common_removals@[k].0 as int][o.common_removals@[k].1 as int]
        },
        res matches Some(o) ==> (o.forced_value matches Some(v) ==> forced_ok(*s, o.focus_row as int, o.focus_col as int, v)),
{
    for r in 0..N
        invariant s.wf(), specs_ok(specs@),
    {
        for c in 0..N
            invariant s.wf(), specs_ok(specs@), r < 9,
        {
            if !s.is_black[r][c] && !s.solved[r][c] && count_digits(s.candidates[r][c]) == 2 {
                let res = guess_at(s, specs, r, c);
                if res.is_some() {
                    return res;
                }
            }
        }
    }
    None
}

/// Binary guess: places the forced digit, or removes what both tries removed.
pub(crate) fn use_binary_guess(s: &mut HumanStr8ts) -> (res: i32)
    requires old(s).wf(),
    ensures
        strategy_done(*old(s), *final(s), res, H_BINARY_GUESS),
        forall|r: int, c: int| 0 <= r < 9 && 0 <= c < 9 && !old(s).solved[r][c] && #[trigger] final(s).solved[r][c] ==> forced_ok(
            *old(s),
            r,
            c,
            final(s).numbers[r][c],
        ),
{
    let ghost s0 = *s;
    proof {
        lemma_tracks_refl(s0);
    }
    let specs = strategy_order();
    match analyze_binary_guess(s, &specs) {
        None => {},
        Some(outcome) => {
            match outcome.forced_value {
                Some(chosen) => {
                    add_digit(s, outcome.focus_row, outcome.focus_col, chosen);
                    proof {
                        lemma_strategy_done(s0, *s, true, H_BINARY_GUESS);
                        assert forall|r: int, c: int| 0 <= r < 9 && 0 <= c < 9 && !s0.solved[r][c] && #[trigger] s.solved[r][c] implies forced_ok(
                            s0,
                            r,
                            c,
                            s.numbers[r][c],
                        ) by {
                            assert(r == outcome.focus_row && c == outcome.focus_col);
                        }
                    }
                    return H_BINARY_GUESS;
                },
                None => {},
            }
            let mut effective = false;
            let removals = &outcome.common_removals;
            for k in 0..removals.len()
                invariant
                    s0 == *old(s), s0.wf(), tracks(s0, *s, effective),
                    forall|k: int| 0 <= k < removals@.len() ==> (#[trigger] removals@[k]).0 < 9 && removals@[k].1 < 9 && !s0.is_black[removals@[k].0 as int][removals@[k].1 as int],
                    s.is_black == s0.is_black,
                    s.solved == s0.solved,
            {
                let (rr, cc, common) = removals[k];
                proof {
                    assert(removals@[k as int] == (rr, cc, common));
                }
                let ghost before = *s;
                let e = narrow(s, rr, cc, !common);
                proof {
                    lemma_tracks_chain(s0, before, *s, effective, e);
                }
                if e {
                    effective = true;
                }
            }
            if effective {
                proof {
                    lemma_strategy_done(s0, *s, true, H_BINARY_GUESS);
                }
                return H_BINARY_GUESS;
            }
            proof {
                lemma_no_progress(s0, *s);
            }
        },
    }
    proof {
        lemma_strategy_done(s0, *s, false, H_BINARY_GUESS);
    }
    0
}

} // verus!
