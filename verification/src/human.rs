//! Solving like a human: find the easiest strategy that tells something,
//! report it as a step with its effects, apply steps, and rate a puzzle by
//! its hardest step.
use vstd::prelude::*;
use vstd::seq_lib::to_multiset_contains;
use crate::board::{HumanStr8ts, N};
use crate::candidates::{board_done, board_valid, copy_board, copy_of, is_done, is_valid};
use crate::describe::{build_strategy_description, description_text, name_text, strategy_name};
use crate::guess::{analyze_binary_guess, use_binary_guess};
use crate::hardness::{H_BINARY_GUESS, H_UNSOLVABLE};
use crate::mask::{bit, bit_of, has_digit, is_digit, is_mask, lemma_bit_has, lemma_has_and_not, lemma_mask_ext, lemma_mask_ops_closed, lemma_zero_has_none};
use crate::moves::{
    add_digit, same_frame, cell_shrinks, lemma_no_progress, lemma_tracks_chain, lemma_tracks_refl, lemma_weight_drops, moved, narrow, progress,
    propagate_add, rem_candidate, same_cells, steps, strategy_done, tracks, weight,
};
use crate::order::{StrategyKind, StrategySpec, apply_basic_strategy, kind_applies, kind_h, listed_specs, none_found, sorted_specs, spec_le, param_ok, specs_ok, strategy_order};

verus! {

/// The outcome of solving like a human: the hardness of each step taken, a
/// last `H_UNSOLVABLE` when the strategies ran out, or just `-1` when the
/// board turned out to have a cell without candidates.
#[derive(Debug, Clone)]
pub struct HumanSolveResult {
    pub move_hardnesses: Vec<i32>,
}

/// What a step does to one cell: solves it with `set_value`, or removes the
/// candidates of `removed_mask`.
#[derive(Debug, Clone, Copy)]
pub struct StrategyEffect {
    pub row: usize,
    pub col: usize,
    pub set_value: Option<u8>,
    pub removed_mask: u16,
}

/// A strategy that applies, with what it found.
#[derive(Debug, Clone)]
pub struct StrategyOutcome {
    pub kind: StrategyKind,
    pub hardness: i32,
    pub description: String,
    pub effects: Vec<StrategyEffect>,
}

/// One step of a human solve, as shown to the player.
#[derive(Debug, Clone)]
pub struct HumanStep {
    pub strategy: String,
    pub hardness: i32,
    pub description: String,
    pub immediate_effects: Vec<StrategyEffect>,
}

// ---------------------------------------------------------------------------
// Effects
// ---------------------------------------------------------------------------

/// The effect (if any) on the white cell `(r, c)` of going from `b` to `a`.
pub open spec fn cell_effect(b: HumanStr8ts, a: HumanStr8ts, r: int, c: int) -> Seq<StrategyEffect> {
    let set = !b.solved[r][c] && a.solved[r][c];
    let removed: u16 = if set { 0 } else { b.candidates[r][c] & !a.candidates[r][c] };
    if b.is_black[r][c] || !(set || removed != 0) {
        Seq::empty()
    } else {
        seq![
            StrategyEffect {
                row: r as usize,
                col: c as usize,
                set_value: if set { Some(a.numbers[r][c]) } else { None },
                removed_mask: removed,
            },
        ]
    }
}

/// The effects on the first `k` cells, in row-major order.
pub open spec fn effects_upto(b: HumanStr8ts, a: HumanStr8ts, k: int) -> Seq<StrategyEffect>
    decreases k,
{
    if k <= 0 {
        Seq::empty()
    } else {
        effects_upto(b, a, k - 1) + cell_effect(b, a, (k - 1) / 9, (k - 1) % 9)
    }
}

/// An effect that fits the board `s`: a white cell, solved only with one of
/// its candidates.
pub open spec fn effect_sound(s: HumanStr8ts, e: StrategyEffect) -> bool {
    &&& e.row < 9 && e.col < 9
    &&& !s.is_black[e.row as int][e.col as int]
    &&& e.set_value matches Some(v) ==> is_digit(v) && has_digit(s.candidates[e.row as int][e.col as int], v)
}

/// Effects that fit the board, one per cell.
pub open spec fn effects_sound(s: HumanStr8ts, es: Seq<StrategyEffect>) -> bool {
    &&& forall|k: int| 0 <= k < es.len() ==> effect_sound(s, #[trigger] es[k])
    &&& forall|i: int, j: int| 0 <= i < j < es.len() ==> (#[trigger] es[i]).row != (#[trigger] es[j]).row || es[i].col != es[j].col
}

/// Effects that can be applied without going off the board.
pub open spec fn effects_in_range(es: Seq<StrategyEffect>) -> bool {
    forall|k: int| 0 <= k < es.len() ==> (#[trigger] es[k]).row < 9 && es[k].col < 9 && (es[k].set_value matches Some(v) ==> is_digit(v))
}

/// Every cell of `a` came from the same cell of `b` by strategy moves.
pub open spec fn cells_shrink(b: HumanStr8ts, a: HumanStr8ts) -> bool {
    forall|r: int, c: int| 0 <= r < 9 && 0 <= c < 9 ==> #[trigger] cell_shrinks(b, a, r, c)
}

proof fn lemma_effects_mono(b: HumanStr8ts, a: HumanStr8ts, k1: int, k2: int)
    requires 0 <= k1 <= k2,
    ensures effects_upto(b, a, k1).len() <= effects_upto(b, a, k2).len(),
    decreases k2 - k1,
{
    if k1 < k2 {
        lemma_effects_mono(b, a, k1, k2 - 1);
    }
}

/// When a white cell moved, the effects are not empty.
proof fn lemma_effects_nonempty(b: HumanStr8ts, a: HumanStr8ts, r: int, c: int)
    requires
        cells_shrink(b, a), a.values_wf(), b.values_wf(), a.is_black == b.is_black,
        0 <= r < 9, 0 <= c < 9, moved(b, a, r, c),
    ensures effects_upto(b, a, 81).len() > 0,
{
    assert(cell_shrinks(b, a, r, c));
    let bm = b.candidates[r][c];
    let am = a.candidates[r][c];
    if b.is_black[r][c] {
        assert(!b.solved[r][c] && !a.solved[r][c]);
        assert(false);
    }
    if !(!b.solved[r][c] && a.solved[r][c]) && bm & !am == 0 {
        assert forall|d: u8| is_digit(d) implies (#[trigger] has_digit(am, d) <==> has_digit(bm, d)) by {
            lemma_has_and_not(bm, am, d);
            lemma_zero_has_none(d);
        }
        lemma_mask_ext(am, bm);
    }
    assert(cell_effect(b, a, r, c).len() == 1);
    let k = r * 9 + c;
    assert(k / 9 == r && k % 9 == c) by (nonlinear_arith)
        requires k == r * 9 + c, 0 <= c < 9, 0 <= r;
    assert(effects_upto(b, a, k + 1) == effects_upto(b, a, k) + cell_effect(b, a, r, c));
    lemma_effects_mono(b, a, k + 1, 81);
}

proof fn lemma_effects_upto(b: HumanStr8ts, a: HumanStr8ts, k: int)
    requires
        0 <= k <= 81,
        cells_shrink(b, a),
        a.values_wf(),
    ensures
        effects_sound(b, effects_upto(b, a, k)),
        forall|i: int| 0 <= i < effects_upto(b, a, k).len() ==> (#[trigger] effects_upto(b, a, k)[i]).row * 9
            + effects_upto(b, a, k)[i].col < k,
        forall|i: int, j: int| 0 <= i < j < effects_upto(b, a, k).len() ==> (#[trigger] effects_upto(b, a, k)[i]).row * 9
            + effects_upto(b, a, k)[i].col < (#[trigger] effects_upto(b, a, k)[j]).row * 9 + effects_upto(b, a, k)[j].col,
    decreases k,
{
    if k > 0 {
        lemma_effects_upto(b, a, k - 1);
        let r = (k - 1) / 9;
        let c = (k - 1) % 9;
        assert(r * 9 + c == k - 1);
        assert(cell_shrinks(b, a, r, c));
        let prev = effects_upto(b, a, k - 1);
        let cur = effects_upto(b, a, k);
        let e = cell_effect(b, a, r, c);
        assert(cur == prev + e);
        assert forall|i: int| 0 <= i < cur.len() implies (#[trigger] cur[i]).row * 9 + cur[i].col < k && effect_sound(b, cur[i]) by {
            if i < prev.len() {
                assert(cur[i] == prev[i]);
            } else {
                assert(cur[i] == e[i - prev.len()]);
                assert(cur[i].row == r && cur[i].col == c);
            }
        }
        assert forall|i: int, j: int| 0 <= i < j < cur.len() implies (#[trigger] cur[i]).row * 9 + cur[i].col < (#[trigger] cur[j]).row * 9
            + cur[j].col by {
            if j < prev.len() {
                assert(cur[i] == prev[i]);
                assert(cur[j] == prev[j]);
            } else {
                assert(cur[j] == e[j - prev.len()]);
                assert(cur[j].row == r && cur[j].col == c);
                if i < prev.len() {
                    assert(cur[i] == prev[i]);
                } else {
                    assert(e.len() <= 1);
                }
            }
        }
        assert forall|i: int, j: int| 0 <= i < j < cur.len() implies (#[trigger] cur[i]).row != (#[trigger] cur[j]).row || cur[i].col
            != cur[j].col by {
            assert(cur[i].row * 9 + cur[i].col < cur[j].row * 9 + cur[j].col);
        }
    }
}

/// The effects of going from `before` to `after`, cell by cell in row-major
/// order: newly solved cells with their digit, otherwise the removed candidates.
fn collect_strategy_effects(before: &HumanStr8ts, after: &HumanStr8ts) -> (effects: Vec<StrategyEffect>)
    ensures effects@ == effects_upto(*before, *after, 81),
{
    let mut effects: Vec<StrategyEffect> = Vec::new();
    for r in 0..N
        invariant effects@ == effects_upto(*before, *after, r * 9),
    {
        for c in 0..N
            invariant r < 9, effects@ == effects_upto(*before, *after, r * 9 + c),
        {
            proof {
                assert((r * 9 + c) / 9 == r && (r * 9 + c) % 9 == c) by (nonlinear_arith)
                    requires 0 <= c < 9;
                assert(effects_upto(*before, *after, r * 9 + c + 1) == effects_upto(*before, *after, r * 9 + c) + cell_effect(
                    *before,
                    *after,
                    r as int,
                    c as int,
                ));
            }
            if !before.is_black[r][c] {
                let set = !before.solved[r][c] && after.solved[r][c];
                let set_value = if set { Some(after.numbers[r][c]) } else { None };
                let mut removed_mask = before.candidates[r][c] & !after.candidates[r][c];
                if set {
                    removed_mask = 0;
                }
                if set || removed_mask != 0 {
                    effects.push(StrategyEffect { row: r, col: c, set_value, removed_mask });
                }
            }
            proof {
                assert(effects@ =~= effects_upto(*before, *after, r * 9 + c + 1));
            }
        }
    }
    effects
}

/// The union of the removed candidates of the first `k` effects.
pub open spec fn removed_union(es: Seq<StrategyEffect>, k: int) -> u16
    decreases k,
{
    if k <= 0 {
        0
    } else {
        removed_union(es, k - 1) | es[k - 1].removed_mask
    }
}

fn union_removed(effects: &Vec<StrategyEffect>) -> (m: u16)
    ensures m == removed_union(effects@, effects@.len() as int),
{
    let mut m: u16 = 0;
    for k in 0..effects.len()
        invariant m == removed_union(effects@, k as int),
    {
        m = m | effects[k].removed_mask;
    }
    m
}

/// Runs any strategy, the binary guess included.
pub(crate) fn apply_ordered_strategy(s: &mut HumanStr8ts, kind: StrategyKind, param: usize) -> (res: i32)
    requires old(s).wf(), param_ok(kind, param as int),
    ensures
        strategy_done(*old(s), *final(s), res, kind_h(kind, param as int) as i32),
        kind != StrategyKind::BinaryGuess ==> none_found(kind, param as int, *old(s), *final(s), res),
{
    match kind {
        StrategyKind::BinaryGuess => use_binary_guess(s),
        _ => apply_basic_strategy(s, kind, param),
    }
}

/// For a binary guess, adds its focus cell as an effect without changes when
/// no effect names that cell yet.
fn append_binary_guess_focus_effect(s: &HumanStr8ts, effects: &mut Vec<StrategyEffect>)
    requires s.wf(), effects_sound(*s, old(effects)@),
    ensures effects_sound(*s, final(effects)@), final(effects)@.len() >= old(effects)@.len(),
{
    let specs = strategy_order();
    let outcome = match analyze_binary_guess(s, &specs) {
        Some(o) => o,
        None => {
            return;
        },
    };
    for k in 0..effects.len()
        invariant
            effects@ == old(effects)@,
            effects_sound(*s, effects@),
            forall|i: int| 0 <= i < k ==> !(#[trigger] effects@[i].row == outcome.focus_row && effects@[i].col == outcome.focus_col),
    {
        if effects[k].row == outcome.focus_row && effects[k].col == outcome.focus_col {
            return;
        }
    }
    let ghost before = effects@;
    effects.push(StrategyEffect { row: outcome.focus_row, col: outcome.focus_col, set_value: None, removed_mask: 0 });
    proof {
        assert forall|i: int, j: int| 0 <= i < j < effects@.len() implies (#[trigger] effects@[i]).row != (#[trigger] effects@[j]).row
            || effects@[i].col != effects@[j].col by {
            if j == before.len() {
                assert(effects@[i] == before[i]);
            } else {
                assert(effects@[i] == before[i]);
                assert(effects@[j] == before[j]);
            }
        }
        assert forall|k: int| 0 <= k < effects@.len() implies effect_sound(*s, #[trigger] effects@[k]) by {
            if k < before.len() {
                assert(effects@[k] == before[k]);
            }
        }
    }
}

/// What a strategy tells on a copy of the board, if anything.
pub open spec fn outcome_ok(s: HumanStr8ts, o: StrategyOutcome) -> bool {
    &&& exists|param: int| #![trigger kind_h(o.kind, param)] {
        &&& param_ok(o.kind, param)
        &&& o.hardness == kind_h(o.kind, param)
        &&& o.description@ == description_text(o.kind, param, removed_union(o.effects@, o.effects@.len() as int))
    }
    &&& o.effects@.len() > 0
    &&& effects_sound(s, o.effects@)
}

/// Runs the strategy on a copy of `base` and reports its effects.
fn run_strategy_on_clone(base: &HumanStr8ts, kind: StrategyKind, param: usize) -> (res: Option<StrategyOutcome>)
    requires base.wf(), param_ok(kind, param as int),
    ensures
        res matches Some(o) ==> outcome_ok(*base, o) && o.kind == kind && o.hardness == kind_h(kind, param as int),
        res matches Some(o) ==> run_effects(kind, param as int, *base, o.effects@, o.hardness),
        kind != StrategyKind::BinaryGuess ==> exists|t: HumanStr8ts| #[trigger] copy_of(t, *base) && (res is Some <==> kind_applies(
            kind,
            param as int,
            t,
        )),
{
    let mut trial = copy_board(base);
    let ghost t0 = trial;
    let hardness = apply_ordered_strategy(&mut trial, kind, param);
    proof {
        assert(copy_of(t0, *base));
    }
    if hardness <= 0 {
        return None;
    }
    let mut effects = collect_strategy_effects(base, &trial);
    proof {
        assert(cells_shrink(*base, trial)) by {
            assert forall|r: int, c: int| 0 <= r < 9 && 0 <= c < 9 implies #[trigger] cell_shrinks(*base, trial, r, c) by {
                assert(cell_shrinks(t0, trial, r, c));
            }
        }
        lemma_effects_upto(*base, trial, 81);
        let (r, c) = choose|r: int, c: int| 0 <= r < 9 && 0 <= c < 9 && #[trigger] moved(t0, trial, r, c);
        assert(moved(*base, trial, r, c));
        lemma_effects_nonempty(*base, trial, r, c);
    }
    if kind == StrategyKind::BinaryGuess {
        append_binary_guess_focus_effect(base, &mut effects);
    }
    if effects.len() == 0 {
        return None;
    }
    let removed = union_removed(&effects);
    let description = build_strategy_description(kind, param, removed);
    proof {
        assert(param_ok(kind, param as int) && hardness == kind_h(kind, param as int));
        assert(ran(kind, param as int, t0, trial, hardness));
    }
    Some(StrategyOutcome { kind, hardness, description, effects })
}

/// Running the strategy on the copy `t` gives `u`, by its contract.
pub open spec fn ran(kind: StrategyKind, param: int, t: HumanStr8ts, u: HumanStr8ts, h: i32) -> bool {
    &&& strategy_done(t, u, h, kind_h(kind, param) as i32)
    &&& none_found(kind, param, t, u, h)
}

/// `es` are the changes that the strategy makes when run on a copy of
/// `base`: for every strategy but the binary guess, exactly the cells it
/// changed, in row-major order.
pub open spec fn run_effects(kind: StrategyKind, param: int, base: HumanStr8ts, es: Seq<StrategyEffect>, h: i32) -> bool {
    exists|t: HumanStr8ts, u: HumanStr8ts| copy_of(t, base) && #[trigger] ran(kind, param, t, u, h) && (kind
        != StrategyKind::BinaryGuess ==> es == effects_upto(base, u, 81))
}

/// The step is what a strategy of its name does on a copy of `s`, and that
/// strategy (unless it is the binary guess) finds something there.
pub open spec fn step_runs(s: HumanStr8ts, st: HumanStep) -> bool {
    exists|kind: StrategyKind, param: int| st.strategy@ == name_text(kind) && #[trigger] run_effects(
        kind,
        param,
        s,
        st.immediate_effects@,
        st.hardness,
    ) && (kind != StrategyKind::BinaryGuess ==> found_something(kind, param, s))
}

/// The strategy finds something on a copy of the board `s`.
pub open spec fn found_something(kind: StrategyKind, param: int, s: HumanStr8ts) -> bool {
    exists|t: HumanStr8ts| #[trigger] copy_of(t, s) && kind_applies(kind, param, t)
}

/// The strategy finds nothing on a copy of the board `s`.
pub open spec fn found_nothing(kind: StrategyKind, param: int, s: HumanStr8ts) -> bool {
    exists|t: HumanStr8ts| #[trigger] copy_of(t, s) && !kind_applies(kind, param, t)
}

/// The first strategy of `specs` that tells something about `s` (the binary
/// guess only when allowed).
fn find_next_strategy_outcome(s: &HumanStr8ts, specs: &Vec<StrategySpec>, allow_binary_guess: bool) -> (res: Option<StrategyOutcome>)
    requires s.wf(), specs_ok(specs@),
    ensures
        res matches Some(o) ==> outcome_ok(*s, o) && (!allow_binary_guess ==> o.kind != StrategyKind::BinaryGuess),
        res is None ==> forall|k: int| 0 <= k < specs@.len() && specs@[k].kind != StrategyKind::BinaryGuess ==> #[trigger] found_nothing(
            specs@[k].kind,
            specs@[k].param as int,
            *s,
        ),
        res matches Some(o) ==> exists|k: int| 0 <= k < specs@.len() && o.kind == (#[trigger] specs@[k]).kind && o.hardness == specs@[k].hardness
            && (o.kind != StrategyKind::BinaryGuess ==> found_something(specs@[k].kind, specs@[k].param as int, *s))
            && run_effects(specs@[k].kind, specs@[k].param as int, *s, o.effects@, o.hardness)
            && forall|j: int| 0 <= j < k && specs@[j].kind != StrategyKind::BinaryGuess ==> #[trigger] found_nothing(
            specs@[j].kind,
            specs@[j].param as int,
            *s,
        ),
{
    let mut k: usize = 0;
    while k < specs.len()
        invariant
            s.wf(), specs_ok(specs@), k <= specs@.len(),
            forall|j: int| 0 <= j < k && specs@[j].kind != StrategyKind::BinaryGuess ==> #[trigger] found_nothing(
                specs@[j].kind,
                specs@[j].param as int,
                *s,
            ),
        decreases specs@.len() - k,
    {
        let spec = specs[k];
        proof {
            assert(param_ok(specs@[k as int].kind, specs@[k as int].param as int));
        }
        if allow_binary_guess || spec.kind != StrategyKind::BinaryGuess {
            let res = run_strategy_on_clone(s, spec.kind, spec.param);
            if res.is_some() {
                proof {
                    assert(specs@[k as int] == spec);
                    if spec.kind != StrategyKind::BinaryGuess {
                        let t = choose|t: HumanStr8ts| #[trigger] copy_of(t, *s) && (res is Some <==> kind_applies(spec.kind, spec.param as int, t));
                        assert(found_something(spec.kind, spec.param as int, *s));
                    }
                }
                return res;
            }
            proof {
                if spec.kind != StrategyKind::BinaryGuess {
                    let t = choose|t: HumanStr8ts| #[trigger] copy_of(t, *s) && (res is Some <==> kind_applies(spec.kind, spec.param as int, t));
                    assert(found_nothing(spec.kind, spec.param as int, *s));
                }
            }
        }
        k = k + 1;
    }
    None
}

// ---------------------------------------------------------------------------
// Applying steps
// ---------------------------------------------------------------------------

/// What one effect does to a cell, given as (solved, digit, candidates): an
/// unsolved cell is solved with the effect's digit, or loses the removed
/// candidates.
pub open spec fn effect_on_cell(cell: (bool, u8, u16), e: StrategyEffect) -> (bool, u8, u16) {
    match e.set_value {
        Some(num) => if cell.0 {
            cell
        } else {
            (true, num, bit_of(num))
        },
        None => if e.removed_mask != 0 && !cell.0 {
            (cell.0, cell.1, cell.2 & !e.removed_mask)
        } else {
            cell
        },
    }
}

/// The cell `(r, c)` of `s` (solved, digit, candidates) once the first `k`
/// effects have been applied in order.
pub open spec fn cell_after(s: HumanStr8ts, es: Seq<StrategyEffect>, k: int, r: int, c: int) -> (bool, u8, u16)
    decreases k,
{
    if k <= 0 {
        (s.solved[r][c], s.numbers[r][c], s.candidates[r][c])
    } else {
        let prev = cell_after(s, es, k - 1, r, c);
        if es[k - 1].row == r && es[k - 1].col == c {
            effect_on_cell(prev, es[k - 1])
        } else {
            prev
        }
    }
}

/// The digits that the first `k` effects place, as (row, column, digit) in order:
/// those that solve a cell not solved before.
pub open spec fn placements_upto(s: HumanStr8ts, es: Seq<StrategyEffect>, k: int) -> Seq<(usize, usize, u8)>
    decreases k,
{
    if k <= 0 {
        Seq::empty()
    } else {
        let e = es[k - 1];
        let prev = placements_upto(s, es, k - 1);
        match e.set_value {
            Some(num) => if !cell_after(s, es, k - 1, e.row as int, e.col as int).0 {
                prev.push((e.row, e.col, num))
            } else {
                prev
            },
            None => prev,
        }
    }
}

/// The digits of the first `k` placements that lie in the row or the column
/// of `(r, c)`, elsewhere than the cell itself.
pub open spec fn struck_digits(ps: Seq<(usize, usize, u8)>, r: int, c: int, k: int) -> u16
    decreases k,
{
    if k <= 0 {
        0
    } else {
        let p = ps[k - 1];
        let here = (p.0 == r && p.1 != c) || (p.1 == c && p.0 != r);
        struck_digits(ps, r, c, k - 1) | (if here { bit_of(p.2) } else { 0u16 })
    }
}

/// Applies the effects in order: solves unsolved cells with their digit and
/// removes candidates from unsolved cells. Returns the placements made.
fn apply_immediate_effects(s: &mut HumanStr8ts, effects: &Vec<StrategyEffect>) -> (placed: Vec<(usize, usize, u8)>)
    requires effects_in_range(effects@),
    ensures
        forall|k: int| 0 <= k < placed@.len() ==> (#[trigger] placed@[k]).0 < 9 && placed@[k].1 < 9 && is_digit(placed@[k].2),
        placed@ == placements_upto(*old(s), effects@, effects@.len() as int),
        forall|r: int, c: int| 0 <= r < 9 && 0 <= c < 9 ==> #[trigger] cell_after(*old(s), effects@, effects@.len() as int, r, c) == (
            final(s).solved[r][c],
            final(s).numbers[r][c],
            final(s).candidates[r][c],
        ),
        final(s).is_black == old(s).is_black,
        final(s).row_compartments == old(s).row_compartments,
        final(s).col_compartments == old(s).col_compartments,
        final(s).cell_to_row_compartment == old(s).cell_to_row_compartment,
        final(s).cell_to_col_compartment == old(s).cell_to_col_compartment,
        old(s).wf() && effects_sound(*old(s), effects@) ==> steps(*old(s), *final(s)),
{
    let ghost s0 = *s;
    let mut placed: Vec<(usize, usize, u8)> = Vec::new();
    let ghost sound = s0.wf() && effects_sound(s0, effects@);
    proof {
        if sound {
            lemma_tracks_refl(s0);
        }
    }
    let mut k: usize = 0;
    while k < effects.len()
        invariant
            k <= effects@.len(),
            effects_in_range(effects@),
            forall|i: int| 0 <= i < placed@.len() ==> (#[trigger] placed@[i]).0 < 9 && placed@[i].1 < 9 && is_digit(placed@[i].2),
            s.is_black == s0.is_black,
            s.row_compartments == s0.row_compartments,
            s.col_compartments == s0.col_compartments,
            s.cell_to_row_compartment == s0.cell_to_row_compartment,
            s.cell_to_col_compartment == s0.cell_to_col_compartment,
            sound == (s0.wf() && effects_sound(s0, effects@)),
            sound ==> steps(s0, *s),
            placed@ == placements_upto(s0, effects@, k as int),
            forall|r: int, c: int| 0 <= r < 9 && 0 <= c < 9 ==> #[trigger] cell_after(s0, effects@, k as int, r, c) == (
                s.solved[r][c],
                s.numbers[r][c],
                s.candidates[r][c],
            ),
            sound ==> forall|j: int| k <= j < effects@.len() ==> {
                let e = #[trigger] effects@[j];
                &&& s.solved[e.row as int][e.col as int] == s0.solved[e.row as int][e.col as int]
                &&& s.candidates[e.row as int][e.col as int] == s0.candidates[e.row as int][e.col as int]
            },
        decreases effects@.len() - k,
    {
        let effect = effects[k];
        let r = effect.row;
        let c = effect.col;
        proof {
            assert(effects@[k as int] == effect);
        }
        let ghost before = *s;
        proof {
            assert(cell_after(s0, effects@, k as int, r as int, c as int) == (
                before.solved[r as int][c as int],
                before.numbers[r as int][c as int],
                before.candidates[r as int][c as int],
            ));
        }
        match effect.set_value {
            Some(num) => {
                if !s.solved[r][c] {
                    add_digit(s, r, c, num);
                    placed.push((r, c, num));
                }
            },
            None => {
                if effect.removed_mask != 0 && !s.solved[r][c] {
                    let _ = narrow(s, r, c, !effect.removed_mask);
                }
            },
        }
        proof {
            assert(effects@.take(k + 1).len() == k + 1);
            assert forall|i: int, j: int| 0 <= i < 9 && 0 <= j < 9 implies #[trigger] cell_after(s0, effects@, k + 1, i, j) == (
                s.solved[i][j],
                s.numbers[i][j],
                s.candidates[i][j],
            ) by {
                assert(cell_after(s0, effects@, k as int, i, j) == (before.solved[i][j], before.numbers[i][j], before.candidates[i][j]));
                if i == r && j == c {
                    if effect.set_value is None && effect.removed_mask != 0 && !before.solved[i][j] {
                        assert(before.candidates[i][j] & !effect.removed_mask == s.candidates[i][j]);
                    }
                }
            }
            assert(placed@ == placements_upto(s0, effects@, k + 1)) by {
                assert(cell_after(s0, effects@, k as int, r as int, c as int).0 == before.solved[r as int][c as int]);
            }
            if sound {
                assert(effect_sound(s0, effect));
                lemma_tracks_chain(s0, before, *s, progress(s0, before), progress(before, *s));
                assert forall|j: int| k + 1 <= j < effects@.len() implies {
                    let e = #[trigger] effects@[j];
                    &&& s.solved[e.row as int][e.col as int] == s0.solved[e.row as int][e.col as int]
                    &&& s.candidates[e.row as int][e.col as int] == s0.candidates[e.row as int][e.col as int]
                } by {
                    let e = effects@[j];
                    assert(effects@[k as int].row != e.row || effects@[k as int].col != e.col);
                }
            }
        }
        k = k + 1;
    }
    placed
}

/// What striking the placed digits `ps` takes from `(r, c)`: for an unsolved
/// white cell, its candidates among the digits placed elsewhere in its row or
/// column; nothing for other cells.
pub open spec fn struck_off(s: HumanStr8ts, ps: Seq<(usize, usize, u8)>, r: int, c: int) -> u16 {
    if !s.is_black[r][c] && !s.solved[r][c] {
        s.candidates[r][c] & struck_digits(ps, r, c, ps.len() as int)
    } else {
        0
    }
}

/// One removal effect per cell among the first `k` in row-major order whose
/// mask `m` is not empty.
pub open spec fn removal_effects(m: spec_fn(int, int) -> u16, k: int) -> Seq<StrategyEffect>
    decreases k,
{
    if k <= 0 {
        Seq::empty()
    } else {
        let r = (k - 1) / 9;
        let c = (k - 1) % 9;
        removal_effects(m, k - 1) + if m(r, c) != 0 {
            seq![StrategyEffect { row: r as usize, col: c as usize, set_value: None, removed_mask: m(r, c) }]
        } else {
            Seq::empty()
        }
    }
}

/// The cells of the line of `(pr, pc)` that a strike has gone through after
/// `step` of its 18 steps (the row first, then the column).
pub open spec fn stepped(pr: int, pc: int, step: int, x: int, y: int) -> bool {
    (x == pr && y != pc && y < step) || (y == pc && x != pr && x + 9 < step)
}

proof fn lemma_strike(m: u16, st: u16, b: u16, sh: u16)
    requires sh < 9, b == 1u16 << sh,
    ensures
        m & !(m & st) == m & !st,
        (m & !st) & b != 0 ==> (m & st) | b == m & (st | b),
        (m & !st) & b == 0 ==> m & st == m & (st | b),
{
    assert(m & !(m & st) == m & !st) by (bit_vector);
    assert((m & !st) & b != 0 ==> (m & st) | b == m & (st | b)) by (bit_vector)
        requires sh < 9, b == 1u16 << sh;
    assert((m & !st) & b == 0 ==> m & st == m & (st | b)) by (bit_vector);
}

proof fn lemma_zero_mask(m: u16)
    ensures m & !0u16 == m, m & 0u16 == 0, m | 0u16 == m,
{
    assert(m & !0u16 == m) by (bit_vector);
    assert(m & 0u16 == 0) by (bit_vector);
    assert(m | 0u16 == m) by (bit_vector);
}

/// Strikes each placed digit from the other unsolved white cells of its row
/// and column; returns what it removed, cell by cell in row-major order.
fn apply_propagation_from_placements(s: &mut HumanStr8ts, placements: &Vec<(usize, usize, u8)>) -> (effects: Vec<StrategyEffect>)
    requires
        forall|k: int| 0 <= k < placements@.len() ==> (#[trigger] placements@[k]).0 < 9 && placements@[k].1 < 9 && is_digit(placements@[k].2),
    ensures
        old(s).wf() ==> steps(*old(s), *final(s)),
        final(s).solved == old(s).solved,
        final(s).numbers == old(s).numbers,
        same_frame(*old(s), *final(s)),
        forall|r: int, c: int| 0 <= r < 9 && 0 <= c < 9 ==> #[trigger] final(s).candidates[r][c] == old(s).candidates[r][c] & !struck_off(
            *old(s),
            placements@,
            r,
            c,
        ),
        effects@ == removal_effects(|r: int, c: int| struck_off(*old(s), placements@, r, c), 81),
        forall|k: int| 0 <= k < effects@.len() ==> {
            &&& (#[trigger] effects@[k]).row < 9 && effects@[k].col < 9
            &&& effects@[k].set_value is None
            &&& effects@[k].removed_mask != 0
        },
{
    let ghost s0 = *s;
    let ghost ps = placements@;
    let mut removed = [[0u16; N]; N];
    proof {
        if s0.wf() {
            lemma_tracks_refl(s0);
        }
        assert forall|r: int, c: int| 0 <= r < 9 && 0 <= c < 9 implies #[trigger] s.candidates[r][c] == s0.candidates[r][c] & !removed[r][c] by {
            lemma_zero_mask(s0.candidates[r][c]);
        }
        assert forall|r: int, c: int| 0 <= r < 9 && 0 <= c < 9 implies #[trigger] removed[r][c] == if !s0.is_black[r][c] && !s0.solved[r][c] {
            s0.candidates[r][c] & struck_digits(ps, r, c, 0)
        } else {
            0
        } by {
            lemma_zero_mask(s0.candidates[r][c]);
        }
    }
    for k in 0..placements.len()
        invariant
            ps == placements@,
            forall|k: int| 0 <= k < placements@.len() ==> (#[trigger] placements@[k]).0 < 9 && placements@[k].1 < 9 && is_digit(placements@[k].2),
            s0.wf() ==> steps(s0, *s),
            s.solved == s0.solved,
            s.numbers == s0.numbers,
            same_frame(s0, *s),
            forall|r: int, c: int| 0 <= r < 9 && 0 <= c < 9 ==> #[trigger] s.candidates[r][c] == s0.candidates[r][c] & !removed[r][c],
            forall|r: int, c: int| 0 <= r < 9 && 0 <= c < 9 ==> #[trigger] removed[r][c] == if !s0.is_black[r][c] && !s0.solved[r][c] {
                s0.candidates[r][c] & struck_digits(ps, r, c, k as int)
            } else {
                0
            },
    {
        let (r, c, num) = placements[k];
        proof {
            assert(placements@[k as int] == (r, c, num));
        }
        let b = bit(num);
        let ghost kk = k as int;
        proof {
            assert forall|x: int, y: int| 0 <= x < 9 && 0 <= y < 9 implies #[trigger] removed[x][y] == if !s0.is_black[x][y] && !s0.solved[x][y] {
                s0.candidates[x][y] & (struck_digits(ps, x, y, kk) | if stepped(r as int, c as int, 0, x, y) {
                    b
                } else {
                    0u16
                })
            } else {
                0
            } by {
                lemma_zero_mask(struck_digits(ps, x, y, kk));
            }
        }
        for step in 0..2 * N
            invariant
                r < 9, c < 9, is_digit(num), b == bit_of(num),
                ps == placements@, 0 <= kk < ps.len(), ps[kk] == (r, c, num),
                s0.wf() ==> steps(s0, *s),
                s.solved == s0.solved,
                s.numbers == s0.numbers,
                same_frame(s0, *s),
                forall|x: int, y: int| 0 <= x < 9 && 0 <= y < 9 ==> #[trigger] s.candidates[x][y] == s0.candidates[x][y] & !removed[x][y],
                forall|x: int, y: int| 0 <= x < 9 && 0 <= y < 9 ==> #[trigger] removed[x][y] == if !s0.is_black[x][y] && !s0.solved[x][y] {
                    s0.candidates[x][y] & (struck_digits(ps, x, y, kk) | if stepped(r as int, c as int, step as int, x, y) {
                        b
                    } else {
                        0u16
                    })
                } else {
                    0
                },
        {
            let (rr, cc, skip) = if step < N { (r, step, step == c) } else { (step - N, c, step - N == r) };
            let ghost removed0 = removed;
            let ghost cands0 = s.candidates;
            if !skip && !s.is_black[rr][cc] && !s.solved[rr][cc] && s.candidates[rr][cc] & b != 0 {
                let ghost before = *s;
                rem_candidate(s, rr, cc, num);
                proof {
                    if s0.wf() {
                        lemma_tracks_chain(s0, before, *s, progress(s0, before), true);
                    }
                    let m = s0.candidates[rr as int][cc as int];
                    let old_rem = removed[rr as int][cc as int];
                    assert((m & !old_rem) & !b == m & !(old_rem | b)) by (bit_vector);
                }
                let mut row = removed[rr];
                row[cc] = row[cc] | b;
                removed[rr] = row;
            }
            proof {
                assert forall|x: int, y: int| 0 <= x < 9 && 0 <= y < 9 implies #[trigger] removed[x][y] == if !s0.is_black[x][y] && !s0.solved[x][y] {
                    s0.candidates[x][y] & (struck_digits(ps, x, y, kk) | if stepped(r as int, c as int, step + 1, x, y) {
                        b
                    } else {
                        0u16
                    })
                } else {
                    0
                } by {
                    let st = struck_digits(ps, x, y, kk);
                    let m = s0.candidates[x][y];
                    lemma_strike(m, st, b, (num - 1) as u16);
                    lemma_zero_mask(st);
                    if x == rr && y == cc && !skip {
                        assert(!stepped(r as int, c as int, step as int, x, y));
                        assert(stepped(r as int, c as int, step + 1, x, y));
                        if !s0.is_black[x][y] && !s0.solved[x][y] {
                            assert(removed0[x][y] == m & st);
                            assert(cands0[x][y] == m & !(m & st));
                        }
                    } else {
                        assert(stepped(r as int, c as int, step + 1, x, y) == stepped(r as int, c as int, step as int, x, y));
                        assert(removed[x][y] == removed0[x][y]);
                    }
                }
            }
        }
        proof {
            assert forall|x: int, y: int| 0 <= x < 9 && 0 <= y < 9 implies #[trigger] removed[x][y] == if !s0.is_black[x][y] && !s0.solved[x][y] {
                s0.candidates[x][y] & struck_digits(ps, x, y, kk + 1)
            } else {
                0
            } by {
                let p = ps[kk];
                assert(stepped(r as int, c as int, 18, x, y) == ((p.0 == x && p.1 != y) || (p.1 == y && p.0 != x)));
            }
        }
    }
    let ghost f = |x: int, y: int| struck_off(s0, ps, x, y);
    proof {
        assert forall|x: int, y: int| 0 <= x < 9 && 0 <= y < 9 implies #[trigger] removed[x][y] == f(x, y) by {}
        assert forall|x: int, y: int| 0 <= x < 9 && 0 <= y < 9 implies #[trigger] s.candidates[x][y] == s0.candidates[x][y] & !struck_off(
            s0,
            ps,
            x,
            y,
        ) by {
            assert(removed[x][y] == f(x, y));
        }
    }
    let mut effects: Vec<StrategyEffect> = Vec::new();
    for r in 0..N
        invariant
            f == (|x: int, y: int| struck_off(s0, ps, x, y)),
            forall|x: int, y: int| 0 <= x < 9 && 0 <= y < 9 ==> #[trigger] removed[x][y] == f(x, y),
            effects@ == removal_effects(f, r * 9),
    {
        for c in 0..N
            invariant
                r < 9,
                f == (|x: int, y: int| struck_off(s0, ps, x, y)),
                forall|x: int, y: int| 0 <= x < 9 && 0 <= y < 9 ==> #[trigger] removed[x][y] == f(x, y),
                effects@ == removal_effects(f, r * 9 + c),
        {
            proof {
                assert((r * 9 + c) / 9 == r && (r * 9 + c) % 9 == c) by (nonlinear_arith)
                    requires 0 <= c < 9;
            }
            if removed[r][c] != 0 {
                effects.push(StrategyEffect { row: r, col: c, set_value: None, removed_mask: removed[r][c] });
            }
            proof {
                assert(removed[r as int][c as int] == f(r as int, c as int));
                assert(effects@ =~= removal_effects(f, r * 9 + c + 1));
            }
        }
    }
    proof {
        lemma_removal_effects_shape(f, 81);
    }
    effects
}

proof fn lemma_removal_effects_shape(m: spec_fn(int, int) -> u16, k: int)
    requires k <= 81,
    ensures
        forall|i: int| 0 <= i < removal_effects(m, k).len() ==> {
            &&& (#[trigger] removal_effects(m, k)[i]).row < 9 && removal_effects(m, k)[i].col < 9
            &&& removal_effects(m, k)[i].set_value is None
            &&& removal_effects(m, k)[i].removed_mask != 0
        },
    decreases k,
{
    if k > 0 {
        lemma_removal_effects_shape(m, k - 1);
        let prev = removal_effects(m, k - 1);
        let cur = removal_effects(m, k);
        assert forall|i: int| 0 <= i < cur.len() implies {
            &&& (#[trigger] cur[i]).row < 9 && cur[i].col < 9
            &&& cur[i].set_value is None
            &&& cur[i].removed_mask != 0
        } by {
            if i < prev.len() {
                assert(cur[i] == prev[i]);
            } else {
                assert((k - 1) / 9 < 9 && (k - 1) % 9 < 9) by (nonlinear_arith)
                    requires 0 < k <= 81;
            }
        }
    }
}

/// Applies an outcome found on a copy: its effects in order, then each digit
/// placed is struck from the other white cells of its row and column.
fn apply_strategy_outcome(s: &mut HumanStr8ts, outcome: &StrategyOutcome)
    requires old(s).wf(), outcome_ok(*old(s), *outcome),
    ensures
        steps(*old(s), *final(s)),
        forall|i: int, j: int| 0 <= i < 9 && 0 <= j < 9 ==> {
            let cell = #[trigger] cell_after(*old(s), outcome.effects@, outcome.effects@.len() as int, i, j);
            let ps = placements_upto(*old(s), outcome.effects@, outcome.effects@.len() as int);
            &&& final(s).solved[i][j] == cell.0
            &&& final(s).numbers[i][j] == cell.1
            &&& final(s).candidates[i][j] == if !old(s).is_black[i][j] {
                cell.2 & !struck_digits(ps, i, j, ps.len() as int)
            } else {
                cell.2
            }
        },
{
    let ghost s0 = *s;
    let ghost es = outcome.effects@;
    proof {
        assert forall|k: int| 0 <= k < outcome.effects@.len() implies (#[trigger] outcome.effects@[k]).row < 9 && outcome.effects@[k].col < 9
            && (outcome.effects@[k].set_value matches Some(v) ==> is_digit(v)) by {
            assert(effect_sound(s0, outcome.effects@[k]));
        }
    }
    let placed = apply_immediate_effects(s, &outcome.effects);
    let ghost s1 = *s;
    let ghost ps = placed@;
    proof {
        assert forall|i: int, j: int| 0 <= i < 9 && 0 <= j < 9 implies #[trigger] s.candidates[i][j] == if !s1.is_black[i][j] {
            s1.candidates[i][j] & !struck_digits(ps, i, j, 0)
        } else {
            s1.candidates[i][j]
        } by {
            lemma_zero_mask(s1.candidates[i][j]);
        }
    }
    for k in 0..placed.len()
        invariant
            s0.wf(), steps(s0, s1), steps(s1, *s),
            ps == placed@,
            forall|k: int| 0 <= k < placed@.len() ==> (#[trigger] placed@[k]).0 < 9 && placed@[k].1 < 9 && is_digit(placed@[k].2),
            s.solved == s1.solved, s.numbers == s1.numbers, s.is_black == s1.is_black,
            forall|i: int, j: int| 0 <= i < 9 && 0 <= j < 9 ==> #[trigger] s.candidates[i][j] == if !s1.is_black[i][j] {
                s1.candidates[i][j] & !struck_digits(ps, i, j, k as int)
            } else {
                s1.candidates[i][j]
            },
    {
        let (r, c, num) = placed[k];
        proof {
            assert(placed@[k as int] == (r, c, num));
        }
        let ghost before = *s;
        propagate_add(s, r, c, num);
        proof {
            lemma_tracks_chain(s1, before, *s, progress(s1, before), progress(before, *s));
            assert forall|i: int, j: int| 0 <= i < 9 && 0 <= j < 9 implies #[trigger] s.candidates[i][j] == if !s1.is_black[i][j] {
                s1.candidates[i][j] & !struck_digits(ps, i, j, k + 1)
            } else {
                s1.candidates[i][j]
            } by {
                let st = struck_digits(ps, i, j, k as int);
                let m = s1.candidates[i][j];
                let b = bit_of(num);
                lemma_zero_mask(st);
                assert((m & !st) & !b == m & !(st | b)) by (bit_vector);
            }
        }
    }
    proof {
        lemma_tracks_chain(s0, s1, *s, progress(s0, s1), progress(s1, *s));
        assert forall|i: int, j: int| 0 <= i < 9 && 0 <= j < 9 implies {
            let cell = #[trigger] cell_after(s0, es, es.len() as int, i, j);
            let ps2 = placements_upto(s0, es, es.len() as int);
            &&& s.solved[i][j] == cell.0
            &&& s.numbers[i][j] == cell.1
            &&& s.candidates[i][j] == if !s0.is_black[i][j] {
                cell.2 & !struck_digits(ps2, i, j, ps2.len() as int)
            } else {
                cell.2
            }
        } by {
            assert(cell_after(s0, es, es.len() as int, i, j) == (s1.solved[i][j], s1.numbers[i][j], s1.candidates[i][j]));
        }
    }
}

/// A step found by `next_human_step` fits the board it was found on.
pub open spec fn step_ok(s: HumanStr8ts, step: HumanStep) -> bool {
    &&& exists|kind: StrategyKind, param: int| #![trigger kind_h(kind, param)] {
        &&& param_ok(kind, param)
        &&& step.strategy@ == name_text(kind)
        &&& step.hardness == kind_h(kind, param)
        &&& step.description@ == description_text(kind, param, removed_union(step.immediate_effects@, step.immediate_effects@.len() as int))
    }
    &&& step.immediate_effects@.len() > 0
    &&& effects_sound(s, step.immediate_effects@)
}

/// The next step of a human solve: the easiest strategy (by hardness, then by
/// listing order) that tells something about the board, with its effects.
/// `None` when no strategy does.
#[verifier::spinoff_prover]
#[verifier::rlimit(100)]
pub fn next_human_step(s: &HumanStr8ts) -> (step: Option<HumanStep>)
    requires s.wf(),
    ensures
        step matches Some(st) ==> step_ok(*s, st),
        step is None ==> forall|k: int| 0 <= k < listed_specs().len() && listed_specs()[k].kind != StrategyKind::BinaryGuess
            ==> #[trigger] found_nothing(listed_specs()[k].kind, listed_specs()[k].param as int, *s),
        step matches Some(st) ==> forall|k: int| 0 <= k < listed_specs().len() && listed_specs()[k].kind != StrategyKind::BinaryGuess
            && listed_specs()[k].hardness < st.hardness ==> #[trigger] found_nothing(
            listed_specs()[k].kind,
            listed_specs()[k].param as int,
            *s,
        ),
        step matches Some(st) ==> step_runs(*s, st),
{
    let specs = strategy_order();
    proof {
        assert forall|k: int| 0 <= k < listed_specs().len() implies specs@.contains(#[trigger] listed_specs()[k]) by {
            to_multiset_contains(listed_specs(), listed_specs()[k]);
            to_multiset_contains(specs@, listed_specs()[k]);
        }
    }
    let outcome = match find_next_strategy_outcome(s, &specs, true) {
        Some(o) => o,
        None => {
            proof {
                assert forall|k: int| 0 <= k < listed_specs().len() && listed_specs()[k].kind != StrategyKind::BinaryGuess
                    implies #[trigger] found_nothing(listed_specs()[k].kind, listed_specs()[k].param as int, *s) by {
                    assert(specs@.contains(listed_specs()[k]));
                    let j = choose|j: int| 0 <= j < specs@.len() && specs@[j] == listed_specs()[k];
                    assert(found_nothing(specs@[j].kind, specs@[j].param as int, *s));
                }
            }
            return None;
        },
    };
    proof {
        let k0 = choose|k: int| 0 <= k < specs@.len() && outcome.kind == (#[trigger] specs@[k]).kind && outcome.hardness == specs@[k].hardness
            && (outcome.kind != StrategyKind::BinaryGuess ==> found_something(specs@[k].kind, specs@[k].param as int, *s))
            && run_effects(specs@[k].kind, specs@[k].param as int, *s, outcome.effects@, outcome.hardness)
            && forall|j: int| 0 <= j < k && specs@[j].kind != StrategyKind::BinaryGuess ==> #[trigger] found_nothing(
            specs@[j].kind,
            specs@[j].param as int,
            *s,
        );
        assert forall|k: int| 0 <= k < listed_specs().len() && listed_specs()[k].kind != StrategyKind::BinaryGuess
            && listed_specs()[k].hardness < outcome.hardness implies #[trigger] found_nothing(
            listed_specs()[k].kind,
            listed_specs()[k].param as int,
            *s,
        ) by {
            assert(specs@.contains(listed_specs()[k]));
            let j = choose|j: int| 0 <= j < specs@.len() && specs@[j] == listed_specs()[k];
            if j >= k0 {
                if j > k0 {
                    assert(spec_le(specs@[k0], specs@[j]));
                }
            }
            assert(found_nothing(specs@[j].kind, specs@[j].param as int, *s));
        }
    }
    let strategy = strategy_name(outcome.kind);
    let step = HumanStep {
        strategy,
        hardness: outcome.hardness,
        description: outcome.description,
        immediate_effects: outcome.effects,
    };
    proof {
        let param = choose|param: int| #![trigger kind_h(outcome.kind, param)] {
            &&& param_ok(outcome.kind, param)
            &&& outcome.hardness == kind_h(outcome.kind, param)
            &&& outcome.description@ == description_text(outcome.kind, param, removed_union(outcome.effects@, outcome.effects@.len() as int))
        };
        assert(param_ok(outcome.kind, param) && step.hardness == kind_h(outcome.kind, param));
        assert(step.strategy@ == name_text(outcome.kind));
        let k1 = choose|k: int| 0 <= k < specs@.len() && outcome.kind == (#[trigger] specs@[k]).kind && outcome.hardness == specs@[k].hardness
            && (outcome.kind != StrategyKind::BinaryGuess ==> found_something(specs@[k].kind, specs@[k].param as int, *s))
            && run_effects(specs@[k].kind, specs@[k].param as int, *s, outcome.effects@, outcome.hardness);
        assert(run_effects(outcome.kind, specs@[k1].param as int, *s, step.immediate_effects@, step.hardness));
        assert(step_runs(*s, step));
    }
    Some(step)
}

/// What a step's propagation takes from `(r, c)`: once the effects `es` are
/// applied, for an unsolved white cell, its candidates among the digits the
/// effects placed elsewhere in its row or column; nothing for other cells.
pub open spec fn struck_after(s: HumanStr8ts, es: Seq<StrategyEffect>, r: int, c: int) -> u16 {
    let cell = cell_after(s, es, es.len() as int, r, c);
    let ps = placements_upto(s, es, es.len() as int);
    if !s.is_black[r][c] && !cell.0 {
        cell.2 & struck_digits(ps, r, c, ps.len() as int)
    } else {
        0
    }
}

proof fn lemma_removal_effects_agree(m1: spec_fn(int, int) -> u16, m2: spec_fn(int, int) -> u16, k: int)
    requires
        k <= 81,
        forall|r: int, c: int| 0 <= r < 9 && 0 <= c < 9 ==> #[trigger] m1(r, c) == m2(r, c),
    ensures removal_effects(m1, k) == removal_effects(m2, k),
    decreases k,
{
    if k > 0 {
        lemma_removal_effects_agree(m1, m2, k - 1);
        assert(0 <= (k - 1) / 9 < 9 && 0 <= (k - 1) % 9 < 9) by (nonlinear_arith)
            requires 0 < k <= 81;
        assert(m1((k - 1) / 9, (k - 1) % 9) == m2((k - 1) / 9, (k - 1) % 9));
    }
}

/// Applies a step: its effects in order (solving unsolved cells, removing
/// candidates from unsolved cells), then strikes each digit placed from the
/// unsolved white cells of its row and column; returns what the strikes
/// removed, cell by cell in row-major order. A step that fits the board (as
/// `next_human_step` gives) moves it by the rules.
pub fn apply_human_step(s: &mut HumanStr8ts, step: &HumanStep) -> (propagation: Vec<StrategyEffect>)
    requires effects_in_range(step.immediate_effects@),
    ensures
        forall|r: int, c: int| 0 <= r < 9 && 0 <= c < 9 ==> {
            let cell = #[trigger] cell_after(*old(s), step.immediate_effects@, step.immediate_effects@.len() as int, r, c);
            &&& final(s).solved[r][c] == cell.0
            &&& final(s).numbers[r][c] == cell.1
            &&& final(s).candidates[r][c] == cell.2 & !struck_after(*old(s), step.immediate_effects@, r, c)
        },
        final(s).is_black == old(s).is_black,
        final(s).row_compartments == old(s).row_compartments,
        final(s).col_compartments == old(s).col_compartments,
        final(s).cell_to_row_compartment == old(s).cell_to_row_compartment,
        final(s).cell_to_col_compartment == old(s).cell_to_col_compartment,
        propagation@ == removal_effects(|r: int, c: int| struck_after(*old(s), step.immediate_effects@, r, c), 81),
        old(s).wf() && effects_sound(*old(s), step.immediate_effects@) ==> steps(*old(s), *final(s)),
        forall|k: int| 0 <= k < propagation@.len() ==> {
            &&& (#[trigger] propagation@[k]).row < 9 && propagation@[k].col < 9
            &&& propagation@[k].set_value is None
            &&& propagation@[k].removed_mask != 0
        },
{
    let ghost s0 = *s;
    let ghost es = step.immediate_effects@;
    let placements = apply_immediate_effects(s, &step.immediate_effects);
    let ghost s1 = *s;
    let effects = apply_propagation_from_placements(s, &placements);
    proof {
        if s0.wf() && effects_sound(s0, es) {
            lemma_tracks_chain(s0, s1, *s, progress(s0, s1), progress(s1, *s));
        }
        assert forall|r: int, c: int| 0 <= r < 9 && 0 <= c < 9 implies #[trigger] struck_off(s1, placements@, r, c) == struck_after(s0, es, r, c) by {
            assert(cell_after(s0, es, es.len() as int, r, c) == (s1.solved[r][c], s1.numbers[r][c], s1.candidates[r][c]));
        }
        let f1 = |r: int, c: int| struck_off(s1, placements@, r, c);
        let f2 = |r: int, c: int| struck_after(s0, es, r, c);
        assert forall|r: int, c: int| 0 <= r < 9 && 0 <= c < 9 implies #[trigger] f1(r, c) == f2(r, c) by {
            assert(struck_off(s1, placements@, r, c) == struck_after(s0, es, r, c));
        }
        lemma_removal_effects_agree(f1, f2, 81);
        assert forall|r: int, c: int| 0 <= r < 9 && 0 <= c < 9 implies {
            let cell = #[trigger] cell_after(s0, es, es.len() as int, r, c);
            &&& s.solved[r][c] == cell.0
            &&& s.numbers[r][c] == cell.1
            &&& s.candidates[r][c] == cell.2 & !struck_after(s0, es, r, c)
        } by {
            assert(cell_after(s0, es, es.len() as int, r, c) == (s1.solved[r][c], s1.numbers[r][c], s1.candidates[r][c]));
            assert(struck_off(s1, placements@, r, c) == struck_after(s0, es, r, c));
        }
    }
    effects
}


// ---------------------------------------------------------------------------
// Solving and rating
// ---------------------------------------------------------------------------

/// The hardnesses a human solve reports for the board it ends on: `-1` alone
/// when a cell ran out of candidates; otherwise the steps' hardnesses, all
/// below `H_UNSOLVABLE`, followed by `H_UNSOLVABLE` exactly when cells are
/// left unsolved.
pub open spec fn solve_report(end: HumanStr8ts, moves: Seq<i32>) -> bool {
    &&& !board_valid(end) <==> moves == seq![-1i32]
    &&& board_valid(end) ==> {
        &&& forall|i: int| 0 <= i < moves.len() ==> (0 < #[trigger] moves[i] < H_UNSOLVABLE) || (i == moves.len() - 1
            && moves[i] == H_UNSOLVABLE)
        &&& (moves.len() > 0 && moves.last() == H_UNSOLVABLE) <==> !board_done(end)
    }
}

proof fn lemma_kind_h_range(kind: StrategyKind, param: int)
    requires param_ok(kind, param),
    ensures 0 < kind_h(kind, param) < H_UNSOLVABLE,
{
}

/// Whether the cells of `s` are still `solved` and `cands`.
fn cells_unchanged(s: &HumanStr8ts, solved: &[[bool; N]; N], cands: &[[u16; N]; N]) -> (same: bool)
    ensures same == (s.solved == *solved && s.candidates == *cands),
{
    for r in 0..N
        invariant
            forall|i: int, c: int| 0 <= i < r && 0 <= c < 9 ==> #[trigger] s.solved[i][c] == solved[i][c],
            forall|i: int, c: int| 0 <= i < r && 0 <= c < 9 ==> #[trigger] s.candidates[i][c] == cands[i][c],
    {
        for c in 0..N
            invariant
                r < 9,
                forall|i: int, j: int| 0 <= i < 9 && 0 <= j < 9 && (i < r || (i == r && j < c)) ==> #[trigger] s.solved[i][j] == solved[i][j],
                forall|i: int, j: int| 0 <= i < 9 && 0 <= j < 9 && (i < r || (i == r && j < c)) ==> #[trigger] s.candidates[i][j] == cands[i][j],
        {
            if s.solved[r][c] != solved[r][c] || s.candidates[r][c] != cands[r][c] {
                return false;
            }
        }
    }
    proof {
        crate::board::lemma_grid_eq(s.solved, *solved);
        crate::board::lemma_grid_eq(s.candidates, *cands);
    }
    true
}

/// `h` is the hardness of a strategy of the table.
pub open spec fn strategy_hardness(h: i32) -> bool {
    exists|k: int| 0 <= k < listed_specs().len() && (#[trigger] listed_specs()[k]).hardness == h
}

/// Every strategy of the table but the binary guess that is easier than `h`
/// finds nothing on the board `s`.
pub open spec fn easier_find_nothing(s: HumanStr8ts, h: i32) -> bool {
    forall|k: int| 0 <= k < listed_specs().len() && listed_specs()[k].kind != StrategyKind::BinaryGuess && listed_specs()[k].hardness < h
        ==> #[trigger] found_nothing(listed_specs()[k].kind, listed_specs()[k].param as int, s)
}

/// The strategy at `k0` of an ordering of the table, with every earlier one
/// but the binary guess finding nothing, is a strategy of the table and the
/// easiest that finds anything.
proof fn lemma_first_found(specs: Seq<StrategySpec>, s: HumanStr8ts, k0: int)
    requires
        specs.to_multiset() == listed_specs().to_multiset(),
        sorted_specs(specs),
        0 <= k0 < specs.len(),
        forall|j: int| 0 <= j < k0 && specs[j].kind != StrategyKind::BinaryGuess ==> #[trigger] found_nothing(
            specs[j].kind,
            specs[j].param as int,
            s,
        ),
    ensures
        strategy_hardness(specs[k0].hardness),
        easier_find_nothing(s, specs[k0].hardness),
{
    to_multiset_contains(specs, specs[k0]);
    to_multiset_contains(listed_specs(), specs[k0]);
    let i = choose|i: int| 0 <= i < listed_specs().len() && listed_specs()[i] == specs[k0];
    assert(listed_specs()[i].hardness == specs[k0].hardness);
    assert forall|k: int| 0 <= k < listed_specs().len() && listed_specs()[k].kind != StrategyKind::BinaryGuess
        && listed_specs()[k].hardness < specs[k0].hardness implies #[trigger] found_nothing(
        listed_specs()[k].kind,
        listed_specs()[k].param as int,
        s,
    ) by {
        to_multiset_contains(listed_specs(), listed_specs()[k]);
        to_multiset_contains(specs, listed_specs()[k]);
        let j = choose|j: int| 0 <= j < specs.len() && specs[j] == listed_specs()[k];
        if j > k0 {
            assert(spec_le(specs[k0], specs[j]));
        }
        assert(found_nothing(specs[j].kind, specs[j].param as int, s));
    }
}

/// A strategy of kind `kind` and hardness `h` in the table finds something on
/// the board `b` (for the binary guess, only that it is in the table).
pub open spec fn step_by(b: HumanStr8ts, h: i32, kind: StrategyKind) -> bool {
    exists|k: int| 0 <= k < listed_specs().len() && (#[trigger] listed_specs()[k]).hardness == h && listed_specs()[k].kind == kind
        && (kind != StrategyKind::BinaryGuess ==> found_something(kind, listed_specs()[k].param as int, b))
}

/// `h` is the hardness of the easiest strategy of the table that finds
/// something on `b`, one of that hardness doing so.
pub open spec fn step_found(b: HumanStr8ts, h: i32) -> bool {
    &&& strategy_hardness(h)
    &&& easier_find_nothing(b, h)
    &&& exists|kind: StrategyKind| #[trigger] step_by(b, h, kind)
}

/// No strategy of the table but the binary guess finds anything on `b`.
pub open spec fn all_found_nothing(b: HumanStr8ts) -> bool {
    forall|k: int| 0 <= k < listed_specs().len() && listed_specs()[k].kind != StrategyKind::BinaryGuess
        ==> #[trigger] found_nothing(listed_specs()[k].kind, listed_specs()[k].param as int, b)
}

/// Each move is a step found on the board before it, and leads by strategy
/// moves to the board after it.
pub open spec fn applied_run(boards: Seq<HumanStr8ts>, moves: Seq<i32>) -> bool {
    &&& boards.len() == moves.len() + 1
    &&& forall|i: int| 0 <= i < moves.len() ==> #[trigger] step_found(boards[i], moves[i]) && steps(boards[i], boards[i + 1])
}

/// The moves taken: the report without a final 100.
pub open spec fn moves_taken(moves: Seq<i32>) -> Seq<i32> {
    if moves.len() > 0 && moves.last() == H_UNSOLVABLE {
        moves.drop_last()
    } else {
        moves
    }
}

/// A run of steps from `a` to `b`, which ends solved, with nothing more that
/// a strategy other than the binary guess finds, or with a last step that
/// changed nothing.
pub open spec fn human_run(boards: Seq<HumanStr8ts>, a: HumanStr8ts, b: HumanStr8ts, moves: Seq<i32>) -> bool {
    &&& applied_run(boards, moves)
    &&& boards[0] == a && boards.last() == b
    &&& board_done(b) || all_found_nothing(b) || (moves.len() > 0 && !progress(boards[moves.len() - 1], b))
}

/// A human solve from `a` ends at `b` and reports `moves`: the report of the
/// final board, empty exactly when `a` is already solved, and otherwise a run
/// of steps, each the easiest strategy that finds something.
pub open spec fn human_solve(a: HumanStr8ts, b: HumanStr8ts, moves: Seq<i32>) -> bool {
    &&& steps(a, b)
    &&& solve_report(b, moves)
    &&& moves.len() == 0 <==> board_valid(a) && board_done(a)
    &&& moves != seq![-1i32] ==> exists|boards: Seq<HumanStr8ts>| #[trigger] human_run(boards, a, b, moves_taken(moves))
}

/// The strategy at `k0` of an ordering of the table, with every earlier one
/// but the binary guess finding nothing and itself finding something, gives
/// a step found on `s`.
proof fn lemma_step_found(specs: Seq<StrategySpec>, s: HumanStr8ts, k0: int)
    requires
        specs.to_multiset() == listed_specs().to_multiset(),
        sorted_specs(specs),
        0 <= k0 < specs.len(),
        specs[k0].kind != StrategyKind::BinaryGuess ==> found_something(specs[k0].kind, specs[k0].param as int, s),
        forall|j: int| 0 <= j < k0 && specs[j].kind != StrategyKind::BinaryGuess ==> #[trigger] found_nothing(
            specs[j].kind,
            specs[j].param as int,
            s,
        ),
    ensures step_found(s, specs[k0].hardness), step_by(s, specs[k0].hardness, specs[k0].kind),
{
    lemma_first_found(specs, s, k0);
    to_multiset_contains(specs, specs[k0]);
    to_multiset_contains(listed_specs(), specs[k0]);
    let i = choose|i: int| 0 <= i < listed_specs().len() && listed_specs()[i] == specs[k0];
    assert(listed_specs()[i].hardness == specs[k0].hardness);
    assert(step_by(s, specs[k0].hardness, specs[k0].kind));
}

/// When the ordering found nothing, no strategy of the table but the binary
/// guess finds anything.
proof fn lemma_none_found(specs: Seq<StrategySpec>, s: HumanStr8ts)
    requires
        specs.to_multiset() == listed_specs().to_multiset(),
        forall|k: int| 0 <= k < specs.len() && specs[k].kind != StrategyKind::BinaryGuess ==> #[trigger] found_nothing(
            specs[k].kind,
            specs[k].param as int,
            s,
        ),
    ensures all_found_nothing(s),
{
    assert forall|k: int| 0 <= k < listed_specs().len() && listed_specs()[k].kind != StrategyKind::BinaryGuess
        implies #[trigger] found_nothing(listed_specs()[k].kind, listed_specs()[k].param as int, s) by {
        to_multiset_contains(listed_specs(), listed_specs()[k]);
        to_multiset_contains(specs, listed_specs()[k]);
        let j = choose|j: int| 0 <= j < specs.len() && specs[j] == listed_specs()[k];
        assert(found_nothing(specs[j].kind, specs[j].param as int, s));
    }
}

/// Solves like a human: takes the easiest step that tells something until the
/// board is done, a cell has no candidates left, or no strategy helps (or a
/// step changes nothing). Reports the hardness of each step.
#[verifier::spinoff_prover]
#[verifier::rlimit(100)]
pub fn solve_human(s: &mut HumanStr8ts) -> (result: HumanSolveResult)
    requires old(s).wf(),
    ensures
        steps(*old(s), *final(s)),
        solve_report(*final(s), result.move_hardnesses@),
        forall|i: int| 0 <= i < result.move_hardnesses@.len() && 0 < #[trigger] result.move_hardnesses@[i] < H_UNSOLVABLE ==> strategy_hardness(
            result.move_hardnesses@[i],
        ),
        result.move_hardnesses@.len() > 0 && 0 < result.move_hardnesses@[0] < H_UNSOLVABLE ==> easier_find_nothing(
            *old(s),
            result.move_hardnesses@[0],
        ),
        result.move_hardnesses@.len() == 0 <==> board_valid(*old(s)) && board_done(*old(s)),
        result.move_hardnesses@ != seq![-1i32] ==> exists|boards: Seq<HumanStr8ts>| #[trigger] human_run(
            boards,
            *old(s),
            *final(s),
            moves_taken(result.move_hardnesses@),
        ),
{
    let ghost s0 = *s;
    let specs = strategy_order();
    let mut move_hardnesses: Vec<i32> = Vec::new();
    let ghost mut boards: Seq<HumanStr8ts> = seq![s0];
    let ghost mut stop = false;
    proof {
        lemma_tracks_refl(s0);
        lemma_weight_drops(s0, s0);
    }
    loop
        invariant
            s0 == *old(s), s0.wf(), steps(s0, *s), specs_ok(specs@),
            weight(*s) >= 0,
            forall|i: int| 0 <= i < move_hardnesses@.len() ==> 0 < #[trigger] move_hardnesses@[i] < H_UNSOLVABLE,
            forall|i: int| 0 <= i < move_hardnesses@.len() ==> strategy_hardness(#[trigger] move_hardnesses@[i]),
            specs@.to_multiset() == listed_specs().to_multiset(), sorted_specs(specs@),
            move_hardnesses@.len() == 0 ==> *s == s0,
            move_hardnesses@.len() > 0 ==> easier_find_nothing(s0, move_hardnesses@[0]),
            applied_run(boards, move_hardnesses@), boards[0] == s0, boards.last() == *s,
            stop ==> board_done(*s) || !board_valid(*s) || all_found_nothing(*s) || (move_hardnesses@.len() > 0 && !progress(
                boards[move_hardnesses@.len() - 1],
                *s,
            )),
            move_hardnesses@.len() > 0 ==> !(board_done(s0) && board_valid(s0)),
        ensures stop,
        decreases weight(*s),
    {
        proof {
            stop = false;
        }
        if is_done(s) || !is_valid(s) {
            proof {
                stop = true;
            }
            break;
        }
        let outcome = match find_next_strategy_outcome(s, &specs, true) {
            Some(o) => o,
            None => {
                proof {
                    lemma_none_found(specs@, *s);
                    stop = true;
                }
                break;
            },
        };
        let ghost mh0 = move_hardnesses@;
        proof {
            let param = choose|param: int| #![trigger kind_h(outcome.kind, param)] {
                &&& param_ok(outcome.kind, param)
                &&& outcome.hardness == kind_h(outcome.kind, param)
                &&& outcome.description@ == description_text(outcome.kind, param, removed_union(outcome.effects@, outcome.effects@.len() as int))
            };
            lemma_kind_h_range(outcome.kind, param);
            let k0 = choose|k: int| 0 <= k < specs@.len() && outcome.kind == (#[trigger] specs@[k]).kind && outcome.hardness == specs@[k].hardness
                && (outcome.kind != StrategyKind::BinaryGuess ==> found_something(specs@[k].kind, specs@[k].param as int, *s))
                && forall|j: int| 0 <= j < k && specs@[j].kind != StrategyKind::BinaryGuess ==> #[trigger] found_nothing(
                specs@[j].kind,
                specs@[j].param as int,
                *s,
            );
            lemma_step_found(specs@, *s, k0);
        }
        move_hardnesses.push(outcome.hardness);
        proof {
            assert(move_hardnesses@ == mh0.push(outcome.hardness));
            if mh0.len() > 0 {
                assert(move_hardnesses@[0] == mh0[0]);
            }
        }
        let before_solved = s.solved;
        let before_cands = s.candidates;
        let ghost before = *s;
        apply_strategy_outcome(s, &outcome);
        proof {
            lemma_tracks_chain(s0, before, *s, progress(s0, before), progress(before, *s));
            lemma_weight_drops(before, *s);
            let b0 = boards;
            boards = boards.push(*s);
            assert forall|i: int| 0 <= i < move_hardnesses@.len() implies #[trigger] step_found(boards[i], move_hardnesses@[i]) && steps(
                boards[i],
                boards[i + 1],
            ) by {
                if i < mh0.len() {
                    assert(boards[i] == b0[i] && boards[i + 1] == b0[i + 1] && move_hardnesses@[i] == mh0[i]);
                } else {
                    assert(boards[i] == before && boards[i + 1] == *s);
                }
            }
        }
        if cells_unchanged(s, &before_solved, &before_cands) {
            proof {
                assert(boards[move_hardnesses@.len() - 1] == before);
                assert(!progress(before, *s)) by {
                    if progress(before, *s) {
                        let (r, c) = choose|r: int, c: int| 0 <= r < 9 && 0 <= c < 9 && #[trigger] moved(before, *s, r, c);
                    }
                }
                stop = true;
            }
            break;
        }
        proof {
            if !progress(before, *s) {
                lemma_no_progress(before, *s);
            }
        }
    }
    if !is_valid(s) {
        let mut invalid: Vec<i32> = Vec::new();
        invalid.push(-1);
        proof {
            assert(invalid@ =~= seq![-1i32]);
            if board_valid(s0) && board_done(s0) {
                assert(move_hardnesses@.len() == 0);
            }
        }
        return HumanSolveResult { move_hardnesses: invalid };
    }
    let ghost steps_taken = move_hardnesses@;
    let done = is_done(s);
    if !done {
        move_hardnesses.push(H_UNSOLVABLE);
    }
    proof {
        let m = move_hardnesses@;
        assert forall|i: int| 0 <= i < m.len() && 0 < #[trigger] m[i] < H_UNSOLVABLE implies strategy_hardness(m[i]) by {
            if i < steps_taken.len() {
                assert(m[i] == steps_taken[i]);
            }
        }
        if m.len() > 0 && steps_taken.len() > 0 {
            assert(m[0] == steps_taken[0]);
        }
        if done {
            assert(m == steps_taken);
            if m.len() > 0 {
                assert(0 < m[m.len() - 1] < H_UNSOLVABLE);
            }
            assert(moves_taken(m) == steps_taken);
        } else {
            assert(m == steps_taken.push(H_UNSOLVABLE));
            assert(moves_taken(m) == steps_taken);
            assert forall|i: int| 0 <= i < m.len() implies (0 < #[trigger] m[i] < H_UNSOLVABLE) || (i == m.len() - 1 && m[i] == H_UNSOLVABLE) by {
                if i < steps_taken.len() {
                    assert(m[i] == steps_taken[i]);
                }
            }
        }
        if m == seq![-1i32] {
            assert(m[0] == -1);
            if done {
                assert(0 < m[0]);
            } else {
                assert(m.len() == 1);
                assert(m[0] == H_UNSOLVABLE);
            }
        }
        assert(human_run(boards, s0, *s, moves_taken(m)));
        if m.len() == 0 {
            assert(steps_taken.len() == 0);
        }
        if board_valid(s0) && board_done(s0) && steps_taken.len() > 0 {
            assert(easier_find_nothing(s0, steps_taken[0]));
            assert(step_found(boards[0], steps_taken[0]));
        }
    }
    HumanSolveResult { move_hardnesses }
}

/// `h` is the largest entry of `moves`, or 0 for none.
pub open spec fn is_hardest(moves: Seq<i32>, h: i32) -> bool {
    &&& moves.len() == 0 ==> h == 0
    &&& moves.len() > 0 ==> (exists|i: int| 0 <= i < moves.len() && moves[i] == h) && forall|i: int|
        0 <= i < moves.len() ==> #[trigger] moves[i] <= h
}

/// The rating of a puzzle: its hardest step, or 0 without steps.
pub fn puzzle_hardness(moves: &[i32]) -> (h: i32)
    ensures is_hardest(moves@, h),
{
    if moves.len() == 0 {
        return 0;
    }
    let mut h = moves[0];
    for k in 1..moves.len()
        invariant
            moves@.len() > 0,
            exists|i: int| 0 <= i < moves@.len() && moves@[i] == h,
            forall|i: int| 0 <= i < k ==> #[trigger] moves@[i] <= h,
    {
        if moves[k] > h {
            h = moves[k];
        }
    }
    h
}

/// A human solve that stops with cells left is rated `H_UNSOLVABLE`; one that
/// runs into a cell without candidates is rated -1.
pub proof fn lemma_rating_of_failed_solve(end: HumanStr8ts, moves: Seq<i32>, h: i32)
    requires solve_report(end, moves), is_hardest(moves, h),
    ensures
        board_valid(end) && !board_done(end) ==> h == H_UNSOLVABLE,
        !board_valid(end) ==> h == -1,
        board_valid(end) && board_done(end) ==> h < H_UNSOLVABLE,
{
    if board_valid(end) && !board_done(end) {
        assert(moves[moves.len() - 1] == H_UNSOLVABLE);
        let i = choose|i: int| 0 <= i < moves.len() && moves[i] == h;
        assert(moves[i] <= H_UNSOLVABLE);
    }
    if !board_valid(end) {
        assert(moves[0] == -1);
    }
    if board_valid(end) && board_done(end) && moves.len() > 0 {
        let i = choose|i: int| 0 <= i < moves.len() && moves[i] == h;
        assert(moves[i] < H_UNSOLVABLE);
    }
}

/// Applying the step `next_human_step` found moves the board by the rules:
/// black cells and compartments stay, candidates only go, and cells are solved
/// only with one of their candidates.
pub proof fn lemma_found_step_applies(s: HumanStr8ts, step: HumanStep)
    requires s.wf(), step_ok(s, step),
    ensures effects_in_range(step.immediate_effects@), effects_sound(s, step.immediate_effects@),
{
    assert forall|k: int| 0 <= k < step.immediate_effects@.len() implies (#[trigger] step.immediate_effects@[k]).row < 9
        && step.immediate_effects@[k].col < 9 && (step.immediate_effects@[k].set_value matches Some(v) ==> is_digit(v)) by {
        assert(effect_sound(s, step.immediate_effects@[k]));
    }
}


/// Narrows the candidates of the unsolved white cells to the given masks (as
/// a player's pencil marks); a mask of 0 leaves its cell alone.
pub fn apply_candidate_masks(s: &mut HumanStr8ts, masks: &[[u16; N]; N])
    ensures
        forall|r: int, c: int| 0 <= r < 9 && 0 <= c < 9 ==> #[trigger] final(s).candidates[r][c] == if old(s).is_black[r][c]
            || old(s).solved[r][c] || masks[r][c] == 0 {
            old(s).candidates[r][c]
        } else {
            old(s).candidates[r][c] & masks[r][c]
        },
        final(s).solved == old(s).solved,
        final(s).numbers == old(s).numbers,
        final(s).is_black == old(s).is_black,
        final(s).row_compartments == old(s).row_compartments,
        final(s).col_compartments == old(s).col_compartments,
        final(s).cell_to_row_compartment == old(s).cell_to_row_compartment,
        final(s).cell_to_col_compartment == old(s).cell_to_col_compartment,
        old(s).wf() ==> final(s).wf(),
{
    let ghost s0 = *s;
    let mut cands = s.candidates;
    for r in 0..N
        invariant
            s.candidates == s0.candidates, s.solved == s0.solved, s.is_black == s0.is_black,
            forall|i: int, c: int| 0 <= i < 9 && 0 <= c < 9 ==> #[trigger] cands[i][c] == if i >= r || s0.is_black[i][c] || s0.solved[i][c]
                || masks[i][c] == 0 {
                s0.candidates[i][c]
            } else {
                s0.candidates[i][c] & masks[i][c]
            },
    {
        let mut row = cands[r];
        for c in 0..N
            invariant
                r < 9,
                s.candidates == s0.candidates, s.solved == s0.solved, s.is_black == s0.is_black,
                forall|j: int| 0 <= j < 9 ==> #[trigger] row[j] == if j >= c || s0.is_black[r as int][j] || s0.solved[r as int][j]
                    || masks[r as int][j] == 0 {
                    s0.candidates[r as int][j]
                } else {
                    s0.candidates[r as int][j] & masks[r as int][j]
                },
        {
            if !s.is_black[r][c] && !s.solved[r][c] && masks[r][c] != 0 {
                row[c] = row[c] & masks[r][c];
            }
        }
        cands[r] = row;
    }
    s.candidates = cands;
    proof {
        if s0.wf() {
            assert forall|r: int, c: int| 0 <= r < 9 && 0 <= c < 9 implies is_mask(#[trigger] s.candidates[r][c]) by {
                lemma_mask_ops_closed(s0.candidates[r][c], masks[r][c]);
            }
        }
    }
}

} // verus!
