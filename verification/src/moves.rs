//! The moves a human strategy makes on a board, and what every strategy
//! keeps: black cells and compartments stay, candidates only go away, solved
//! cells stay solved, and a cell is solved only with one of its candidates.
use vstd::prelude::*;
use crate::board::{HumanStr8ts, N};
use crate::candidates::{all_digits, digits_of, popcount};
use crate::mask::{bit, bit_of, has_digit, is_digit, is_mask, lemma_bit_has, lemma_has_and, lemma_has_and_not, lemma_mask_ext, lemma_mask_ops_closed};

verus! {

/// Same black cells and the same compartments.
pub open spec fn same_frame(a: HumanStr8ts, b: HumanStr8ts) -> bool {
    &&& a.is_black == b.is_black
    &&& a.row_compartments == b.row_compartments
    &&& a.col_compartments == b.col_compartments
    &&& a.cell_to_row_compartment == b.cell_to_row_compartment
    &&& a.cell_to_col_compartment == b.cell_to_col_compartment
}

/// Every digit of `m` is in `n`.
pub open spec fn sub_mask(m: u16, n: u16) -> bool {
    forall|d: u8| is_digit(d) && #[trigger] has_digit(m, d) ==> has_digit(n, d)
}

/// From `a` to `b` the cell `(r, c)` only lost candidates or got solved with
/// one of its candidates.
pub open spec fn cell_shrinks(a: HumanStr8ts, b: HumanStr8ts, r: int, c: int) -> bool {
    &&& sub_mask(b.candidates[r][c], a.candidates[r][c])
    &&& a.solved[r][c] ==> b.solved[r][c] && b.numbers[r][c] == a.numbers[r][c]
    &&& !a.solved[r][c] && !b.solved[r][c] ==> b.numbers[r][c] == a.numbers[r][c]
    &&& !a.solved[r][c] && b.solved[r][c] ==> has_digit(a.candidates[r][c], b.numbers[r][c])
    &&& a.is_black[r][c] ==> b.candidates[r][c] == a.candidates[r][c]
}

pub open spec fn shrinks(a: HumanStr8ts, b: HumanStr8ts) -> bool {
    &&& same_frame(a, b)
    &&& forall|r: int, c: int| 0 <= r < 9 && 0 <= c < 9 ==> #[trigger] cell_shrinks(a, b, r, c)
}

/// The cell `(r, c)` got solved or lost a candidate.
pub open spec fn moved(a: HumanStr8ts, b: HumanStr8ts, r: int, c: int) -> bool {
    a.solved[r][c] != b.solved[r][c] || a.candidates[r][c] != b.candidates[r][c]
}

/// Some cell got solved or lost a candidate.
pub open spec fn progress(a: HumanStr8ts, b: HumanStr8ts) -> bool {
    exists|r: int, c: int| 0 <= r < 9 && 0 <= c < 9 && #[trigger] moved(a, b, r, c)
}

pub open spec fn same_cells(a: HumanStr8ts, b: HumanStr8ts) -> bool {
    &&& a.solved == b.solved
    &&& a.numbers == b.numbers
    &&& a.candidates == b.candidates
}

/// `b` is a well-formed board that `a` can turn into by strategy moves.
pub open spec fn steps(a: HumanStr8ts, b: HumanStr8ts) -> bool {
    b.wf() && shrinks(a, b)
}

/// `b` follows from `a` by strategy moves, and `eff` tells whether anything moved.
pub open spec fn tracks(a: HumanStr8ts, b: HumanStr8ts, eff: bool) -> bool {
    &&& steps(a, b)
    &&& eff == progress(a, b)
}

/// The contract of a strategy with hardness `h`: it answers `h` when it made
/// progress and 0 when the board is unchanged.
pub open spec fn strategy_done(a: HumanStr8ts, b: HumanStr8ts, res: i32, h: i32) -> bool {
    &&& steps(a, b)
    &&& (res == 0 || res == h)
    &&& (res != 0 <==> progress(a, b))
    &&& res == 0 ==> same_cells(a, b)
}

pub proof fn lemma_tracks_refl(a: HumanStr8ts)
    requires a.wf(),
    ensures tracks(a, a, false), same_cells(a, a),
{
    assert forall|r: int, c: int| 0 <= r < 9 && 0 <= c < 9 implies #[trigger] cell_shrinks(a, a, r, c) by {}
}

/// A cell that moved stays moved when the board shrinks further.
proof fn lemma_moved_persists(a: HumanStr8ts, b: HumanStr8ts, c: HumanStr8ts, r: int, k: int)
    requires
        a.wf(), b.wf(), c.wf(),
        0 <= r < 9, 0 <= k < 9,
        cell_shrinks(a, b, r, k), cell_shrinks(b, c, r, k),
        moved(a, b, r, k),
    ensures moved(a, c, r, k),
{
    if a.solved[r][k] == b.solved[r][k] {
        let ma = a.candidates[r][k];
        let mb = b.candidates[r][k];
        let mc = c.candidates[r][k];
        if forall|d: u8| is_digit(d) ==> (#[trigger] has_digit(ma, d) <==> has_digit(mb, d)) {
            lemma_mask_ext(ma, mb);
        }
        let d = choose|d: u8| is_digit(d) && !(#[trigger] has_digit(ma, d) <==> has_digit(mb, d));
        assert(has_digit(ma, d) && !has_digit(mb, d));
        assert(!has_digit(mc, d));
    }
}

/// Moves compose: what moved in either stretch has moved overall.
pub proof fn lemma_tracks_chain(a: HumanStr8ts, b: HumanStr8ts, c: HumanStr8ts, e1: bool, e2: bool)
    requires a.wf(), tracks(a, b, e1), tracks(b, c, e2),
    ensures tracks(a, c, e1 || e2),
{
    assert forall|r: int, k: int| 0 <= r < 9 && 0 <= k < 9 implies #[trigger] cell_shrinks(a, c, r, k) by {
        assert(cell_shrinks(a, b, r, k));
        assert(cell_shrinks(b, c, r, k));
    }
    if e1 {
        let (r, k) = choose|r: int, k: int| 0 <= r < 9 && 0 <= k < 9 && #[trigger] moved(a, b, r, k);
        assert(cell_shrinks(a, b, r, k));
        assert(cell_shrinks(b, c, r, k));
        lemma_moved_persists(a, b, c, r, k);
    } else if e2 {
        let (r, k) = choose|r: int, k: int| 0 <= r < 9 && 0 <= k < 9 && #[trigger] moved(b, c, r, k);
        assert(!moved(a, b, r, k));
        assert(moved(a, c, r, k));
    } else {
        assert forall|r: int, k: int| 0 <= r < 9 && 0 <= k < 9 implies !#[trigger] moved(a, c, r, k) by {
            assert(!moved(a, b, r, k));
            assert(!moved(b, c, r, k));
        }
    }
}

/// Without progress nothing changed.
pub proof fn lemma_no_progress(a: HumanStr8ts, b: HumanStr8ts)
    requires steps(a, b), !progress(a, b),
    ensures same_cells(a, b),
{
    assert forall|r: int, k: int| 0 <= r < 9 && 0 <= k < 9 implies #[trigger] b.solved[r][k] == a.solved[r][k] by {
        assert(!moved(a, b, r, k));
    }
    assert forall|r: int, k: int| 0 <= r < 9 && 0 <= k < 9 implies #[trigger] b.candidates[r][k] == a.candidates[r][k] by {
        assert(!moved(a, b, r, k));
    }
    assert forall|r: int, k: int| 0 <= r < 9 && 0 <= k < 9 implies #[trigger] b.numbers[r][k] == a.numbers[r][k] by {
        assert(!moved(a, b, r, k));
        assert(cell_shrinks(a, b, r, k));
    }
    crate::board::lemma_grid_eq(a.solved, b.solved);
    crate::board::lemma_grid_eq(a.numbers, b.numbers);
    crate::board::lemma_grid_eq(a.candidates, b.candidates);
}

pub open spec fn others_same<T>(a: [[T; N]; N], b: [[T; N]; N], r: int, c: int) -> bool {
    forall|i: int, j: int| 0 <= i < 9 && 0 <= j < 9 && (i != r || j != c) ==> #[trigger] b[i][j] == a[i][j]
}

/// One cell changed within the rules: the rest of the board is as before.
proof fn lemma_one_cell(a: HumanStr8ts, b: HumanStr8ts, r: int, c: int)
    requires
        a.wf(), 0 <= r < 9, 0 <= c < 9,
        same_frame(a, b),
        others_same(a.solved, b.solved, r, c),
        others_same(a.numbers, b.numbers, r, c),
        others_same(a.candidates, b.candidates, r, c),
        cell_shrinks(a, b, r, c),
        is_mask(b.candidates[r][c]),
        b.numbers[r][c] <= 9,
        b.solved[r][c] ==> !b.is_black[r][c] && 1 <= b.numbers[r][c],
    ensures tracks(a, b, moved(a, b, r, c)),
{
    assert forall|i: int, j: int| 0 <= i < 9 && 0 <= j < 9 implies #[trigger] cell_shrinks(a, b, i, j) by {
        if i != r || j != c {
            assert(b.candidates[i][j] == a.candidates[i][j]);
        }
    }
    if moved(a, b, r, c) {
        assert(progress(a, b));
    } else {
        assert forall|i: int, j: int| 0 <= i < 9 && 0 <= j < 9 implies !#[trigger] moved(a, b, i, j) by {
            if i != r || j != c {
                assert(b.candidates[i][j] == a.candidates[i][j]);
                assert(b.solved[i][j] == a.solved[i][j]);
            }
        }
    }
    assert(b.wf());
}

/// Removes digit `num` from the candidates of `(r, c)`.
pub(crate) fn rem_candidate(s: &mut HumanStr8ts, r: usize, c: usize, num: u8)
    requires r < 9, c < 9, is_digit(num),
    ensures
        final(s).candidates[r as int][c as int] == old(s).candidates[r as int][c as int] & !bit_of(num),
        others_same(old(s).candidates, final(s).candidates, r as int, c as int),
        final(s).solved == old(s).solved,
        final(s).numbers == old(s).numbers,
        same_frame(*old(s), *final(s)),
        old(s).wf() && !old(s).is_black[r as int][c as int] ==> tracks(*old(s), *final(s), has_digit(old(s).candidates[r as int][c as int], num)),
{
    let ghost a = *s;
    let b = bit(num);
    s.candidates[r][c] = s.candidates[r][c] & !b;
    proof {
        if a.wf() && !a.is_black[r as int][c as int] {
            let m = a.candidates[r as int][c as int];
            lemma_mask_ops_closed(m, b);
            assert forall|d: u8| is_digit(d) && #[trigger] has_digit(m & !b, d) implies has_digit(m, d) by {
                lemma_has_and_not(m, b, d);
            }
            lemma_has_and_not(m, b, num);
            lemma_bit_has(num, num);
            if has_digit(m, num) {
                assert(m & !b != m);
            } else {
                assert forall|d: u8| is_digit(d) implies (#[trigger] has_digit(m & !b, d) <==> has_digit(m, d)) by {
                    lemma_has_and_not(m, b, d);
                    lemma_bit_has(num, d);
                }
                lemma_mask_ext(m & !b, m);
            }
            lemma_one_cell(a, *s, r as int, c as int);
        }
    }
}

/// Keeps only the candidates of `(r, c)` that are in `keep`, and tells
/// whether that removed any.
pub(crate) fn narrow(s: &mut HumanStr8ts, r: usize, c: usize, keep: u16) -> (changed: bool)
    requires r < 9, c < 9,
    ensures
        final(s).candidates[r as int][c as int] == old(s).candidates[r as int][c as int] & keep,
        others_same(old(s).candidates, final(s).candidates, r as int, c as int),
        final(s).solved == old(s).solved,
        final(s).numbers == old(s).numbers,
        same_frame(*old(s), *final(s)),
        changed == (old(s).candidates[r as int][c as int] & keep != old(s).candidates[r as int][c as int]),
        old(s).wf() && !old(s).is_black[r as int][c as int] ==> tracks(*old(s), *final(s), changed),
{
    let ghost a = *s;
    let old_mask = s.candidates[r][c];
    let new_mask = old_mask & keep;
    if new_mask != old_mask {
        s.candidates[r][c] = new_mask;
        proof {
            if a.wf() && !a.is_black[r as int][c as int] {
                lemma_mask_ops_closed(old_mask, keep);
                assert forall|d: u8| is_digit(d) && #[trigger] has_digit(new_mask, d) implies has_digit(old_mask, d) by {
                    lemma_has_and(old_mask, keep, d);
                }
                lemma_one_cell(a, *s, r as int, c as int);
            }
        }
        true
    } else {
        proof {
            if a.wf() {
                lemma_tracks_refl(a);
            }
            crate::board::lemma_grid_eq(a.candidates, s.candidates);
        }
        false
    }
}

/// `b` is `a` with the cell `(r, c)` solved as `num` and nothing else changed.
pub open spec fn digit_placed(a: HumanStr8ts, b: HumanStr8ts, r: int, c: int, num: u8) -> bool {
    &&& b.solved[r][c] && b.numbers[r][c] == num && b.candidates[r][c] == bit_of(num)
    &&& others_same(a.candidates, b.candidates, r, c)
    &&& others_same(a.solved, b.solved, r, c)
    &&& others_same(a.numbers, b.numbers, r, c)
    &&& same_frame(a, b)
}

/// Solves the cell `(r, c)` with `num`, unless it is solved already.
pub(crate) fn add_digit(s: &mut HumanStr8ts, r: usize, c: usize, num: u8)
    requires r < 9, c < 9, is_digit(num),
    ensures
        old(s).solved[r as int][c as int] ==> *final(s) == *old(s),
        !old(s).solved[r as int][c as int] ==> {
            &&& final(s).solved[r as int][c as int]
            &&& final(s).numbers[r as int][c as int] == num
            &&& final(s).candidates[r as int][c as int] == bit_of(num)
        },
        others_same(old(s).candidates, final(s).candidates, r as int, c as int),
        others_same(old(s).solved, final(s).solved, r as int, c as int),
        others_same(old(s).numbers, final(s).numbers, r as int, c as int),
        same_frame(*old(s), *final(s)),
        !old(s).solved[r as int][c as int] ==> digit_placed(*old(s), *final(s), r as int, c as int, num),
        old(s).wf() && !old(s).is_black[r as int][c as int] && (old(s).solved[r as int][c as int] || has_digit(
            old(s).candidates[r as int][c as int],
            num,
        )) ==> tracks(*old(s), *final(s), !old(s).solved[r as int][c as int]),
{
    let ghost a = *s;
    if s.solved[r][c] {
        proof {
            if a.wf() {
                lemma_tracks_refl(a);
            }
        }
        return;
    }
    s.solved[r][c] = true;
    s.numbers[r][c] = num;
    s.candidates[r][c] = bit(num);
    proof {
        if a.wf() && !a.is_black[r as int][c as int] && has_digit(a.candidates[r as int][c as int], num) {
            assert forall|d: u8| is_digit(d) && #[trigger] has_digit(bit_of(num), d) implies has_digit(
                a.candidates[r as int][c as int],
                d,
            ) by {
                lemma_bit_has(num, d);
            }
            lemma_bit_has(num, num);
            lemma_one_cell(a, *s, r as int, c as int);
        }
    }
}

/// After `(r, c)` got `num`: removes `num` from the other white cells of its
/// row and column.
pub(crate) fn propagate_add(s: &mut HumanStr8ts, r: usize, c: usize, num: u8)
    requires r < 9, c < 9, is_digit(num), old(s).wf(),
    ensures
        steps(*old(s), *final(s)),
        final(s).solved == old(s).solved,
        final(s).numbers == old(s).numbers,
        forall|i: int, j: int| 0 <= i < 9 && 0 <= j < 9 ==> #[trigger] final(s).candidates[i][j] == if !old(
            s,
        ).is_black[i][j] && ((i == r && j != c) || (j == c && i != r)) {
            old(s).candidates[i][j] & !bit_of(num)
        } else {
            old(s).candidates[i][j]
        },
{
    let ghost a = *s;
    let ghost mut eff = false;
    proof {
        lemma_tracks_refl(a);
    }
    for cc in 0..N
        invariant
            r < 9, c < 9, is_digit(num), a.wf(),
            tracks(a, *s, eff),
            s.solved == a.solved,
            s.numbers == a.numbers,
            forall|i: int, j: int| 0 <= i < 9 && 0 <= j < 9 ==> #[trigger] s.candidates[i][j] == if !a.is_black[i][j] && (
            i == r && j != c && j < cc) {
                a.candidates[i][j] & !bit_of(num)
            } else {
                a.candidates[i][j]
            },
    {
        if cc != c && !s.is_black[r][cc] {
            let ghost before = *s;
            rem_candidate(s, r, cc, num);
            proof {
                lemma_tracks_chain(a, before, *s, eff, has_digit(before.candidates[r as int][cc as int], num));
                eff = eff || has_digit(before.candidates[r as int][cc as int], num);
            }
        }
    }
    for rr in 0..N
        invariant
            r < 9, c < 9, is_digit(num), a.wf(),
            tracks(a, *s, eff),
            s.solved == a.solved,
            s.numbers == a.numbers,
            forall|i: int, j: int| 0 <= i < 9 && 0 <= j < 9 ==> #[trigger] s.candidates[i][j] == if !a.is_black[i][j] && (
            (i == r && j != c) || (j == c && i != r && i < rr)) {
                a.candidates[i][j] & !bit_of(num)
            } else {
                a.candidates[i][j]
            },
    {
        if rr != r && !s.is_black[rr][c] {
            let ghost before = *s;
            rem_candidate(s, rr, c, num);
            proof {
                lemma_tracks_chain(a, before, *s, eff, has_digit(before.candidates[rr as int][c as int], num));
                eff = eff || has_digit(before.candidates[rr as int][c as int], num);
            }
        }
    }
}


/// A strategy that tracked its moves answers with its hardness exactly when
/// it moved something.
pub proof fn lemma_strategy_done(a: HumanStr8ts, b: HumanStr8ts, eff: bool, h: i32)
    requires a.wf(), tracks(a, b, eff), h != 0,
    ensures strategy_done(a, b, if eff { h } else { 0 }, h),
{
    if !eff {
        lemma_no_progress(a, b);
    }
}


/// Every listed cell lies on the board.
pub open spec fn on_board(cells: Seq<(usize, usize)>) -> bool {
    forall|k: int| 0 <= k < cells.len() ==> (#[trigger] cells[k]).0 < 9 && cells[k].1 < 9
}

/// Every listed cell is white.
pub open spec fn all_white(black: [[bool; N]; N], cells: Seq<(usize, usize)>) -> bool {
    forall|k: int| 0 <= k < cells.len() ==> !black[(#[trigger] cells[k]).0 as int][cells[k].1 as int]
}

/// The cell `(i, j)` is in the list.
pub open spec fn listed(cells: Seq<(usize, usize)>, i: int, j: int) -> bool {
    cells.contains((i as usize, j as usize))
}

pub proof fn lemma_listed_take(cells: Seq<(usize, usize)>, k: int, i: int, j: int)
    requires 0 <= k < cells.len(), 0 <= i < 9, 0 <= j < 9,
    ensures listed(cells.take(k + 1), i, j) <==> listed(cells.take(k), i, j) || cells[k] == (i as usize, j as usize),
{
    let p = (i as usize, j as usize);
    let t1 = cells.take(k + 1);
    let t0 = cells.take(k);
    if listed(t1, i, j) {
        let x = choose|x: int| 0 <= x < t1.len() && #[trigger] t1[x] == p;
        if x < k {
            assert(t0[x] == p);
        }
    }
    if listed(t0, i, j) {
        let x = choose|x: int| 0 <= x < t0.len() && #[trigger] t0[x] == p;
        assert(t1[x] == p);
    }
    if cells[k] == p {
        assert(cells.take(k + 1)[k] == p);
    }
}

/// Taking a bit out twice, or out of a mask without it, changes nothing more.
pub proof fn lemma_clear_bit(m: u16, b: u16)
    ensures
        m & b == 0 ==> m & !b == m,
        (m & !b) & !b == m & !b,
        (m & !b) & b == 0,
{
    assert(m & b == 0 ==> m & !b == m) by (bit_vector);
    assert((m & !b) & !b == m & !b) by (bit_vector);
    assert((m & !b) & b == 0) by (bit_vector);
}

/// Removes digit `n` from every listed cell that has it; tells whether any had.
pub(crate) fn strike_digit(s: &mut HumanStr8ts, cells: &Vec<(usize, usize)>, n: u8) -> (eff: bool)
    requires old(s).wf(), on_board(cells@), all_white(old(s).is_black, cells@), is_digit(n),
    ensures
        tracks(*old(s), *final(s), eff),
        final(s).solved == old(s).solved,
        final(s).numbers == old(s).numbers,
        forall|i: int, j: int| 0 <= i < 9 && 0 <= j < 9 ==> #[trigger] final(s).candidates[i][j] == if listed(cells@, i, j) {
            old(s).candidates[i][j] & !bit_of(n)
        } else {
            old(s).candidates[i][j]
        },
        eff <==> exists|k: int| 0 <= k < cells@.len() && #[trigger] has_digit(
            old(s).candidates[cells@[k].0 as int][cells@[k].1 as int],
            n,
        ),
{
    let ghost s0 = *s;
    let mut eff = false;
    proof {
        lemma_tracks_refl(s0);
    }
    for k in 0..cells.len()
        invariant
            all_white(s0.is_black, cells@), s.is_black == s0.is_black,
            s0 == *old(s), s0.wf(), on_board(cells@), is_digit(n),
            tracks(s0, *s, eff),
            s.solved == s0.solved,
            s.numbers == s0.numbers,
            forall|i: int, j: int| 0 <= i < 9 && 0 <= j < 9 ==> #[trigger] s.candidates[i][j] == if listed(cells@.take(k as int), i, j) {
                s0.candidates[i][j] & !bit_of(n)
            } else {
                s0.candidates[i][j]
            },
    {
        let (r, c) = cells[k];
        proof {
            assert(cells@[k as int] == (r, c));
        }
        let ghost before = *s;
        if s.candidates[r][c] & bit(n) != 0 {
            rem_candidate(s, r, c, n);
            proof {
                lemma_tracks_chain(s0, before, *s, eff, true);
            }
            eff = true;
        }
        proof {
            assert forall|i: int, j: int| 0 <= i < 9 && 0 <= j < 9 implies #[trigger] s.candidates[i][j] == if listed(
                cells@.take(k + 1),
                i,
                j,
            ) {
                s0.candidates[i][j] & !bit_of(n)
            } else {
                s0.candidates[i][j]
            } by {
                lemma_listed_take(cells@, k as int, i, j);
                lemma_clear_bit(s0.candidates[i][j], bit_of(n));
                lemma_clear_bit(before.candidates[i][j], bit_of(n));
            }
        }
    }
    proof {
        assert(cells@.take(cells@.len() as int) == cells@);
    }
    proof {
        if eff {
            let (x, y) = choose|x: int, y: int| 0 <= x < 9 && 0 <= y < 9 && #[trigger] moved(s0, *s, x, y);
            let m = s0.candidates[x][y];
            if !has_digit(m, n) {
                lemma_clear_bit(m, bit_of(n));
            }
            let k = choose|k: int| 0 <= k < cells@.len() && #[trigger] cells@[k] == (x as usize, y as usize);
            assert(has_digit(s0.candidates[cells@[k].0 as int][cells@[k].1 as int], n));
        }
        if exists|k: int| 0 <= k < cells@.len() && #[trigger] has_digit(s0.candidates[cells@[k].0 as int][cells@[k].1 as int], n) {
            let k = choose|k: int| 0 <= k < cells@.len() && #[trigger] has_digit(s0.candidates[cells@[k].0 as int][cells@[k].1 as int], n);
            let (x, y) = cells@[k];
            assert(listed(cells@, x as int, y as int));
            lemma_has_and_not(s0.candidates[x as int][y as int], bit_of(n), n);
            lemma_bit_has(n, n);
            assert(moved(s0, *s, x as int, y as int));
        }
    }
    eff
}


// ---------------------------------------------------------------------------
// A measure that every move lowers
// ---------------------------------------------------------------------------

/// Candidates left in a cell, plus one while it is unsolved.
pub open spec fn cell_weight(s: HumanStr8ts, r: int, c: int) -> int {
    popcount(s.candidates[r][c]) + if s.solved[r][c] { 0int } else { 1int }
}

pub open spec fn weight_from(s: HumanStr8ts, k: int) -> int
    decreases 81 - k,
{
    if k < 0 || k >= 81 {
        0
    } else {
        cell_weight(s, k / 9, k % 9) + weight_from(s, k + 1)
    }
}

/// The candidates left on the board plus the unsolved cells.
pub open spec fn weight(s: HumanStr8ts) -> int {
    weight_from(s, 0)
}

proof fn lemma_filter_mono(v: Seq<u8>, p: spec_fn(u8) -> bool, q: spec_fn(u8) -> bool)
    requires forall|x: u8| #[trigger] p(x) ==> q(x),
    ensures
        v.filter(p).len() <= v.filter(q).len(),
        (exists|i: int| 0 <= i < v.len() && q(v[i]) && !p(#[trigger] v[i])) ==> v.filter(p).len() < v.filter(q).len(),
    decreases v.len(),
{
    reveal(Seq::filter);
    if v.len() > 0 {
        let t = v.drop_last();
        lemma_filter_mono(t, p, q);
        if exists|i: int| 0 <= i < v.len() && q(v[i]) && !p(#[trigger] v[i]) {
            let i = choose|i: int| 0 <= i < v.len() && q(v[i]) && !p(#[trigger] v[i]);
            if i < v.len() - 1 {
                assert(t[i] == v[i]);
            }
        }
    }
}

proof fn lemma_cell_weight(a: HumanStr8ts, b: HumanStr8ts, r: int, c: int)
    requires
        0 <= r < 9, 0 <= c < 9,
        is_mask(a.candidates[r][c]), is_mask(b.candidates[r][c]),
        cell_shrinks(a, b, r, c),
    ensures
        0 <= cell_weight(b, r, c) <= cell_weight(a, r, c),
        moved(a, b, r, c) ==> cell_weight(b, r, c) < cell_weight(a, r, c),
{
    let ma = a.candidates[r][c];
    let mb = b.candidates[r][c];
    let p = |d: u8| has_digit(mb, d);
    let q = |d: u8| has_digit(ma, d);
    let all = all_digits();
    assert forall|x: u8| #[trigger] p(x) implies q(x) by {
        if !is_digit(x) {
            assert(has_digit(mb, x) ==> has_digit(ma, x)) by (bit_vector)
                requires mb < 512, ma < 512, x == 0 || x > 9;
        }
    }
    lemma_filter_mono(all, p, q);
    if moved(a, b, r, c) && a.solved[r][c] == b.solved[r][c] {
        if forall|d: u8| is_digit(d) ==> (#[trigger] has_digit(ma, d) <==> has_digit(mb, d)) {
            lemma_mask_ext(ma, mb);
        }
        let d = choose|d: u8| is_digit(d) && !(#[trigger] has_digit(ma, d) <==> has_digit(mb, d));
        assert(all[d - 1] == d);
        assert(q(all[d - 1]) && !p(all[d - 1]));
    }
}

proof fn lemma_weight_from(a: HumanStr8ts, b: HumanStr8ts, k: int)
    requires a.wf(), b.wf(), shrinks(a, b), 0 <= k <= 81,
    ensures
        0 <= weight_from(b, k) <= weight_from(a, k),
        (exists|j: int| k <= j < 81 && #[trigger] moved(a, b, j / 9, j % 9)) ==> weight_from(b, k) < weight_from(a, k),
    decreases 81 - k,
{
    if k < 81 {
        lemma_weight_from(a, b, k + 1);
        assert(0 <= k / 9 < 9 && 0 <= k % 9 < 9);
        assert(cell_shrinks(a, b, k / 9, k % 9));
        lemma_cell_weight(a, b, k / 9, k % 9);
        if exists|j: int| k <= j < 81 && #[trigger] moved(a, b, j / 9, j % 9) {
            let j = choose|j: int| k <= j < 81 && #[trigger] moved(a, b, j / 9, j % 9);
            if j > k {
                assert(k + 1 <= j < 81 && moved(a, b, j / 9, j % 9));
            }
        }
    }
}

/// Every strategy move keeps the weight from growing, and progress lowers it.
pub proof fn lemma_weight_drops(a: HumanStr8ts, b: HumanStr8ts)
    requires a.wf(), steps(a, b),
    ensures
        0 <= weight(b) <= weight(a),
        progress(a, b) ==> weight(b) < weight(a),
{
    lemma_weight_from(a, b, 0);
    if progress(a, b) {
        let (r, c) = choose|r: int, c: int| 0 <= r < 9 && 0 <= c < 9 && #[trigger] moved(a, b, r, c);
        let j = r * 9 + c;
        assert(j / 9 == r && j % 9 == c) by (nonlinear_arith)
            requires j == r * 9 + c, 0 <= c < 9;
        assert(0 <= j < 81 && moved(a, b, j / 9, j % 9));
    }
}

} // verus!
